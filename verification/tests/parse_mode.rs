use rvt_partitions::parse_mode::{Decoded, Diagnostics, ParseMode, Warning};

#[test]
fn parse_mode_default_is_best_effort() {
    assert_eq!(ParseMode::default(), ParseMode::BestEffort);
}

#[test]
fn warning_construction_with_and_without_offset() {
    let w = Warning::new("test", "msg");
    assert_eq!(w.offset, None);
    let w2 = Warning::at("test", "msg", 0x100);
    assert_eq!(w2.offset, Some(0x100));
}

#[test]
fn warning_keeps_code_and_message() {
    let w = Warning::at("E1", "short read", 7);
    assert_eq!(w.code, "E1");
    assert_eq!(w.message, "short read");
}

#[test]
fn diagnostics_empty_by_default() {
    let d = Diagnostics::default();
    assert!(d.is_empty());
}

#[test]
fn diagnostics_not_empty_after_any_addition() {
    let mut d = Diagnostics::default();
    d.warn(Warning::new("x", "y"));
    assert!(!d.is_empty());

    let mut d = Diagnostics::default();
    d.fail_stream("bad");
    assert!(!d.is_empty());

    let mut d = Diagnostics::default();
    d.partial_field("f");
    assert!(!d.is_empty());
}

#[test]
fn diagnostics_extend_merges() {
    let mut a = Diagnostics::default();
    a.warn(Warning::new("a", "1"));
    let mut b = Diagnostics::default();
    b.warn(Warning::new("b", "2"));
    b.skipped_records = 3;
    a.extend(b);
    assert_eq!(a.warnings.len(), 2);
    assert_eq!(a.skipped_records, 3);
}

#[test]
fn decoded_complete_has_empty_diagnostics() {
    let d = Decoded::complete(42);
    assert_eq!(d.value, 42);
    assert!(d.complete);
    assert!(d.diagnostics.is_empty());
    assert!(d.is_clean());
}

#[test]
fn decoded_partial_not_clean() {
    let mut diag = Diagnostics::default();
    diag.warn(Warning::new("w", "oops"));
    let d = Decoded::partial(42, diag);
    assert!(!d.is_clean());
    assert!(!d.complete);
}

#[test]
fn decoded_map_preserves_diagnostics() {
    let mut diag = Diagnostics::default();
    diag.warn(Warning::new("w", "oops"));
    let d = Decoded::partial(42, diag).map(|n| n * 2);
    assert_eq!(d.value, 84);
    assert_eq!(d.diagnostics.warnings.len(), 1);
    assert!(!d.complete);
}

#[test]
fn extend_keeps_the_first_confidence() {
    let mut a = Diagnostics::default();
    let mut b = Diagnostics::default();
    b.confidence_bits = Some(0.75f32.to_bits());
    b.fail_stream("Formats/Latest");
    a.partial_field("m_elemTable");
    a.extend(b);
    assert_eq!(a.confidence_bits, Some(0.75f32.to_bits()));
    assert_eq!(a.failed_streams, vec!["Formats/Latest".to_string()]);
    assert_eq!(a.partial_fields, vec!["m_elemTable".to_string()]);
    let mut c = Diagnostics::default();
    c.confidence_bits = Some(0.5f32.to_bits());
    c.extend(a);
    assert_eq!(c.confidence_bits, Some(0.5f32.to_bits()));
}
