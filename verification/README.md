# rvt_partitions

Decoders for the binary framing found in inflated Revit `Partitions/*`
streams, written in Verus: each public function states in its contract what
it returns, and the library's laws (a wall is never its own join partner, a
recovered Level list is the one join of its blocks, a Level scan finds what
decoding at every offset finds, and others) are proved as proof functions.

A PartAtom document is read with `quick_xml` behind trusted wrappers: the
contract of `PartAtom::from_bytes` is stated over `xml_reports`, the name for
what the XML reader reports of a text. That a written PartAtom reads back is
proved over those reports: wherever the reader reports, of the document
`encode` writes, the events `document_events` spells out, `from_bytes` gives
back the atom's title, id, update time, taxonomies, categories with their
schemes, and OmniClass code, for every atom whose texts (schemes aside) are
non-empty with no white space at either end.

- `src/` is the verified library. Floating-point values it reads (bounding
  boxes, elevations, layer widths, transparencies) are carried as their
  IEEE-754 words and compared through integer keys.
- `tests/` exercises the library on concrete buffers.
- `app/` holds what stays ordinary Rust: the volume tests that subtract
  floating-point extents, text rendering of diagnostics and errors, and
  serde-ready copies of the record types.
