use rvt_partitions::part_atom::{xml_escape_text, Category, PartAtom, PartAtomError, PartAtomReader, Taxonomy};

fn sample_atom() -> PartAtom {
    PartAtom {
        title: Some("racbasicsamplefamily".into()),
        id: Some("Table-End-0000-CAN-ENU".into()),
        updated: Some("2023-03-27T11:56:02Z".into()),
        taxonomies: vec![Taxonomy { term: "adsk:revit".into(), label: "Autodesk Revit".into() }],
        categories: vec![
            Category { term: "23.40.20.14.17".into(), scheme: Some("std:oc1".into()) },
            Category { term: "Furniture".into(), scheme: Some("adsk:revit:grouping".into()) },
        ],
        omniclass: Some("23.40.20.14.17".into()),
        raw_xml: String::new(),
    }
}

#[test]
fn encode_omits_missing_optional_fields() {
    let atom = PartAtom { title: Some("minimal".into()), ..Default::default() };
    let bytes = atom.encode();
    let s = std::str::from_utf8(&bytes).unwrap();
    assert!(s.contains("<title>minimal</title>"));
    assert!(!s.contains("<id>"));
    assert!(!s.contains("<updated>"));
    assert!(!s.contains("<category>"));
    assert!(!s.contains("<A:taxonomy>"));
}

#[test]
fn encode_emits_well_formed_xml_prolog() {
    let bytes = sample_atom().encode();
    let s = std::str::from_utf8(&bytes).unwrap();
    assert!(s.starts_with("<?xml version=\"1.0\" encoding=\"UTF-8\"?>"));
    assert!(s.contains("xmlns=\"http://www.w3.org/2005/Atom\""));
    assert!(s.contains("xmlns:A=\"urn:schemas-autodesk-com:partatom\""));
    assert!(s.trim_end().ends_with("</entry>"));
}

#[test]
fn encode_category_without_scheme_omits_scheme_tag() {
    let atom = PartAtom {
        categories: vec![Category { term: "Custom".into(), scheme: None }],
        ..Default::default()
    };
    let bytes = atom.encode();
    let s = std::str::from_utf8(&bytes).unwrap();
    assert!(s.contains("<category><term>Custom</term></category>"));
    assert!(!s.contains("<scheme>"));
}

#[test]
fn xml_escape_covers_all_five_reserved_chars() {
    assert_eq!(xml_escape_text("<>&\"'"), "&lt;&gt;&amp;&quot;&apos;");
}

#[test]
fn encode_escapes_xml_special_chars() {
    let atom = PartAtom { title: Some("A & B <test>".into()), ..Default::default() };
    let bytes = atom.encode();
    let s = std::str::from_utf8(&bytes).unwrap();
    assert!(s.contains("A &amp; B &lt;test&gt;"));
    let decoded = PartAtom::from_bytes(&bytes).unwrap();
    assert_eq!(decoded.title.as_deref(), Some("A & B <test>"));
}

#[test]
fn encode_writes_the_full_sample_exactly() {
    let bytes = sample_atom().encode();
    let expected = [
        "<?xml version=\"1.0\" encoding=\"UTF-8\"?>",
        "<entry xmlns=\"http://www.w3.org/2005/Atom\" xmlns:A=\"urn:schemas-autodesk-com:partatom\">",
        "  <title>racbasicsamplefamily</title>",
        "  <id>Table-End-0000-CAN-ENU</id>",
        "  <updated>2023-03-27T11:56:02Z</updated>",
        "  <A:taxonomy><term>adsk:revit</term><label>Autodesk Revit</label></A:taxonomy>",
        "  <category scheme=\"std:oc1\"><term>23.40.20.14.17</term></category>",
        "  <category scheme=\"adsk:revit:grouping\"><term>Furniture</term></category>",
        "</entry>",
        "",
    ]
    .join("\n");
    assert_eq!(std::str::from_utf8(&bytes).unwrap(), expected);
}

#[test]
fn an_empty_atom_is_the_bare_entry() {
    let bytes = PartAtom::default().encode();
    let s = std::str::from_utf8(&bytes).unwrap();
    assert!(s.starts_with("<?xml"));
    assert!(s.contains("<entry"));
    assert!(s.ends_with("</entry>\n"));
    assert_eq!(xml_escape_text("plain"), "plain");
}

#[test]
fn reader_routes_text_by_element() {
    let mut r = PartAtomReader::new("<entry/>".to_string());
    r.start("entry", &vec![]);
    r.start("title", &vec![]);
    r.text("  Chair  ");
    r.end("title");
    r.text("ignored at top");
    r.start("A:taxonomy", &vec![]);
    r.start("term", &vec![]);
    r.text("adsk:revit");
    r.end("term");
    r.start("label", &vec![]);
    r.text("Autodesk Revit");
    r.end("label");
    r.end("A:taxonomy");
    r.start("category", &vec![("scheme".to_string(), "std:oc1".to_string())]);
    r.start("term", &vec![]);
    r.text("23.40.20.14.17");
    r.end("term");
    r.end("category");
    r.start("category", &vec![]);
    r.start("term", &vec![]);
    r.text("Furniture");
    r.end("term");
    r.end("category");
    r.end("entry");
    let atom = r.finish();
    assert_eq!(atom.title.as_deref(), Some("Chair"));
    assert_eq!(atom.raw_xml, "<entry/>");
    assert_eq!(atom.taxonomies.len(), 1);
    assert_eq!(atom.taxonomies[0].term, "adsk:revit");
    assert_eq!(atom.taxonomies[0].label, "Autodesk Revit");
    assert_eq!(atom.categories.len(), 2);
    assert_eq!(atom.categories[0].term, "23.40.20.14.17");
    assert_eq!(atom.categories[0].scheme.as_deref(), Some("std:oc1"));
    assert_eq!(atom.categories[1].scheme, None);
    assert_eq!(atom.omniclass.as_deref(), Some("23.40.20.14.17"));
}

#[test]
fn a_category_without_a_term_is_not_kept() {
    let mut r = PartAtomReader::new(String::new());
    r.start("category", &vec![("scheme".to_string(), "x".to_string())]);
    r.end("category");
    r.start("category", &vec![]);
    r.start("term", &vec![]);
    r.text("12");
    r.end("term");
    r.end("category");
    let atom = r.finish();
    assert_eq!(atom.categories.len(), 1);
    assert_eq!(atom.categories[0].term, "12");
    assert_eq!(atom.categories[0].scheme, None);
    assert_eq!(atom.omniclass, None);
}

#[test]
fn parses_sample_partatom() {
    let xml = r#"<?xml version="1.0" encoding="UTF-8"?>
<entry xmlns="http://www.w3.org/2005/Atom" xmlns:A="urn:schemas-autodesk-com:partatom">
<title>racbasicsamplefamily</title>
<id>Table-End-0000-CAN-ENU</id>
<updated>2023-03-27T11:56:02Z</updated>
<A:taxonomy><term>adsk:revit</term><label>Autodesk Revit</label></A:taxonomy>
<category><term>23.40.20.14.17</term><scheme>std:oc1</scheme></category>
<category><term>Furniture</term><scheme>adsk:revit:grouping</scheme></category>
</entry>"#;
    let atom = PartAtom::from_bytes(xml.as_bytes()).unwrap();
    assert_eq!(atom.title.as_deref(), Some("racbasicsamplefamily"));
    assert_eq!(atom.omniclass.as_deref(), Some("23.40.20.14.17"));
    assert_eq!(atom.categories.len(), 2);
    assert_eq!(atom.taxonomies.len(), 1);
    assert_eq!(atom.taxonomies[0].label, "Autodesk Revit");
}

#[test]
fn encode_round_trips_full_sample() {
    let written = sample_atom();
    let bytes = written.encode();
    let decoded = PartAtom::from_bytes(&bytes).unwrap();
    assert_eq!(decoded.title, written.title);
    assert_eq!(decoded.id, written.id);
    assert_eq!(decoded.updated, written.updated);
    assert_eq!(decoded.taxonomies.len(), written.taxonomies.len());
    assert_eq!(decoded.taxonomies[0].term, written.taxonomies[0].term);
    assert_eq!(decoded.taxonomies[0].label, written.taxonomies[0].label);
    assert_eq!(decoded.categories.len(), written.categories.len());
    assert_eq!(decoded.categories[0].term, written.categories[0].term);
    assert_eq!(decoded.categories[0].scheme, written.categories[0].scheme);
    assert_eq!(decoded.omniclass, written.omniclass);
}

#[test]
fn empty_atom_encodes_valid_minimal_document() {
    let bytes = PartAtom::default().encode();
    let s = std::str::from_utf8(&bytes).unwrap();
    assert!(s.starts_with("<?xml"));
    assert!(s.contains("<entry"));
    assert!(s.contains("</entry>"));
    let decoded = PartAtom::from_bytes(&bytes).unwrap();
    assert!(decoded.title.is_none());
    assert!(decoded.taxonomies.is_empty());
    assert!(decoded.categories.is_empty());
}

#[test]
fn bytes_that_are_not_utf8_are_refused() {
    let r = PartAtom::from_bytes(&[b'<', 0xff, 0xfe, b'>']);
    assert!(matches!(r, Err(PartAtomError::InvalidUtf8(_))));
}

#[test]
fn malformed_xml_is_refused() {
    let r = PartAtom::from_bytes(b"<entry><title>x</entry>");
    assert!(matches!(r, Err(PartAtomError::Malformed(_))));
}

#[test]
fn from_bytes_keeps_the_text_as_raw_xml_and_reads_a_scheme() {
    let xml = "<entry><category scheme=\"std:oc1\"><term> 11.22 </term></category><!-- note --></entry>";
    let atom = PartAtom::from_bytes(xml.as_bytes()).unwrap();
    assert_eq!(atom.raw_xml, xml);
    assert_eq!(atom.categories.len(), 1);
    assert_eq!(atom.categories[0].term, "11.22");
    assert_eq!(atom.categories[0].scheme.as_deref(), Some("std:oc1"));
    assert_eq!(atom.omniclass.as_deref(), Some("11.22"));
}

#[test]
fn an_atom_without_omniclass_keeps_none_through_a_round_trip() {
    let atom = PartAtom {
        categories: vec![Category { term: "1.2".into(), scheme: None }],
        ..Default::default()
    };
    let bytes = atom.encode();
    let s = std::str::from_utf8(&bytes).unwrap();
    assert!(s.contains("<A:omniclass></A:omniclass>"));
    let back = PartAtom::from_bytes(&bytes).unwrap();
    assert_eq!(back.omniclass, None);
    assert_eq!(back.categories.len(), 1);
    assert_eq!(back.categories[0].term, "1.2");
}

#[test]
fn an_omniclass_code_not_among_the_categories_round_trips() {
    let atom = PartAtom {
        categories: vec![
            Category { term: "Furniture".into(), scheme: None },
            Category { term: "23.40".into(), scheme: None },
        ],
        omniclass: Some("9.9".into()),
        ..Default::default()
    };
    let back = PartAtom::from_bytes(&atom.encode()).unwrap();
    assert_eq!(back.omniclass.as_deref(), Some("9.9"));
    assert_eq!(back.categories.len(), 2);
}

#[test]
fn the_sample_writes_no_omniclass_line() {
    let bytes = sample_atom().encode();
    let s = std::str::from_utf8(&bytes).unwrap();
    assert!(!s.contains("omniclass"));
}

#[test]
fn a_scheme_with_special_characters_round_trips() {
    let atom = PartAtom {
        categories: vec![Category { term: "T".into(), scheme: Some("a&b <\"c'>".into()) }],
        ..Default::default()
    };
    let back = PartAtom::from_bytes(&atom.encode()).unwrap();
    assert_eq!(back.categories[0].scheme.as_deref(), Some("a&b <\"c'>"));
}
