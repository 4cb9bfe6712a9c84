//! The document history and the length-prefixed UTF-16LE string records of
//! a model's decompressed `Global/Latest` and `Partitions/NN` streams.

use vstd::prelude::*;
use crate::bytes::{
    find_next, le_u16, le_u32, lemma_next_occurrence_bounds, next_occurrence, read_u16, read_u32,
};
use crate::text::{chars_of, equals_str, starts_with, starts_with_str, string_of};

verus! {

/// The text `encoding_rs`'s UTF-16LE decoder gives for `bytes`.
pub uninterp spec fn utf16le_text(bytes: Seq<u8>) -> Seq<char>;

/// `encoding_rs::UTF_16LE.decode`: the text of `bytes`, decoded as a whole
/// with BOM sniffing and malformed sequences replaced by U+FFFD. The
/// decoding is not restated here; the result is the name `utf16le_text`
/// applied to the bytes. The decoder panics only when its output buffer
/// size overflows `usize`, which the bound on `bytes` rules out.
#[verifier::external_body]
fn decode_utf16le(bytes: &[u8]) -> (r: String)
    requires
        bytes@.len() <= 0x1000,
    ensures
        r@ == utf16le_text(bytes@),
{
    encoding_rs::UTF_16LE.decode(bytes).0.into_owned()
}

/// The characters trimmed from the end of a decoded string: NUL, `/` and
/// space, and tab where `tab` holds.
pub open spec fn trimmed_char(c: char, tab: bool) -> bool {
    c == '\0' || c == '/' || c == ' ' || (tab && c == '\t')
}

/// `s` without its trailing trimmed characters.
pub open spec fn trim_end_by(s: Seq<char>, tab: bool) -> Seq<char>
    decreases s.len(),
{
    if s.len() > 0 && trimmed_char(s.last(), tab) {
        trim_end_by(s.drop_last(), tab)
    } else {
        s
    }
}

fn trim_end_chars(s: &Vec<char>, tab: bool) -> (r: Vec<char>)
    ensures
        r@ == trim_end_by(s@, tab),
{
    let mut n: usize = s.len();
    assert(s@.take(n as int) =~= s@);
    while n > 0 && (s[n - 1] == '\0' || s[n - 1] == '/' || s[n - 1] == ' ' || (tab && s[n - 1] == '\t'))
        invariant
            n <= s@.len(),
            trim_end_by(s@, tab) == trim_end_by(s@.take(n as int), tab),
        decreases n,
    {
        assert(s@.take(n as int).drop_last() =~= s@.take(n - 1));
        n -= 1;
    }
    let mut r: Vec<char> = Vec::new();
    let mut k: usize = 0;
    while k < n
        invariant
            k <= n <= s@.len(),
            r@ == s@.take(k as int),
        decreases n - k,
    {
        r.push(s[k]);
        assert(s@.take(k + 1) =~= s@.take(k as int).push(s@[k as int]));
        k += 1;
    }
    r
}

/// Why no document history could be read.
#[derive(Debug, Clone, Copy, PartialEq, Eq)]
pub enum ObjectGraphError {
    /// The bytes hold no UTF-16LE `"Revit "`.
    NoVersionMarker,
}

/// The Revit version strings a model has been saved by, oldest first.
#[derive(Debug, Clone)]
pub struct DocumentHistory {
    pub entries: Vec<String>,
    /// Where the strings begin in the decompressed `Global/Latest` stream.
    pub string_section_offset: usize,
}

/// The texts of a list of strings.
pub open spec fn texts(v: Seq<String>) -> Seq<Seq<char>> {
    v.map_values(|s: String| s@)
}

/// `"Revit "` in UTF-16LE.
pub open spec fn version_probe() -> Seq<u8> {
    seq![0x52u8, 0, 0x65, 0, 0x76, 0, 0x69, 0, 0x74, 0, 0x20, 0]
}

/// `"Revit "`.
pub open spec fn version_prefix() -> Seq<char> {
    seq!['R', 'e', 'v', 'i', 't', ' ']
}

/// The first position at or after `from` where the probe occurs.
pub open spec fn next_probe(d: Seq<u8>, from: int) -> Option<int> {
    next_occurrence(d, version_probe(), from)
}

/// Where a run of UTF-16 units from `pos` ends: it goes on, up to `max`,
/// while each unit is at least `0x20` (so neither NUL nor a control).
pub open spec fn unit_run_end(d: Seq<u8>, pos: int, max: int) -> int
    decreases max - pos,
{
    if pos + 2 <= max && le_u16(d, pos) >= 0x20 {
        unit_run_end(d, pos + 2, max)
    } else {
        pos
    }
}

/// Where the run read at a probe found at `idx` ends: at most 512 bytes
/// on, and not past the buffer.
pub open spec fn history_run_end(d: Seq<u8>, idx: int) -> int {
    unit_run_end(d, idx, if idx + 512 <= d.len() { idx + 512 } else { d.len() as int })
}

/// The version string read from `d[idx..end]`: the decoded text without
/// its trailing NUL, `/` and space, if it still begins with `"Revit "`.
pub open spec fn history_entry(d: Seq<u8>, idx: int, end: int) -> Option<Seq<char>> {
    let s = trim_end_by(utf16le_text(d.subrange(idx, end)), false);
    if end > idx && starts_with(s, version_prefix()) {
        Some(s)
    } else {
        None
    }
}

/// `entries` with `e` added at the end unless it is already there.
pub open spec fn add_new(entries: Seq<Seq<char>>, e: Option<Seq<char>>) -> Seq<Seq<char>> {
    match e {
        Some(s) => if entries.contains(s) {
            entries
        } else {
            entries.push(s)
        },
        None => entries,
    }
}

/// A run ends between where it starts and its limit.
pub proof fn lemma_unit_run_end_bounds(d: Seq<u8>, pos: int, max: int)
    ensures
        pos <= max ==> pos <= unit_run_end(d, pos, max) <= max,
    decreases max - pos,
{
    if pos + 2 <= max && le_u16(d, pos) >= 0x20 {
        lemma_unit_run_end_bounds(d, pos + 2, max);
    }
}

/// The version strings a scan from `scan` adds to `entries`: at each next
/// probe, the string read there is added if new, and the scan goes on
/// where the run ended (or one byte on).
pub open spec fn history_from(d: Seq<u8>, scan: int, entries: Seq<Seq<char>>) -> Seq<Seq<char>>
    decreases d.len() - scan,
{
    if scan < 0 || scan + 12 > d.len() {
        entries
    } else {
        match next_probe(d, scan) {
            None => entries,
            Some(idx) => {
                let end = history_run_end(d, idx);
                let next = if end > idx + 1 { end } else { idx + 1 };
                proof {
                    lemma_next_occurrence_bounds(d, version_probe(), scan);
                    lemma_unit_run_end_bounds(d, idx, if idx + 512 <= d.len() { idx + 512 } else { d.len() as int });
                }
                history_from(d, next, add_new(entries, history_entry(d, idx, end)))
            },
        }
    }
}

fn probe_from(d: &[u8], from: usize) -> (r: Option<usize>)
    ensures
        match r {
            Some(i) => next_probe(d@, from as int) == Some(i as int),
            None => next_probe(d@, from as int) is None,
        },
{
    let probe: [u8; 12] = [0x52, 0, 0x65, 0, 0x76, 0, 0x69, 0, 0x74, 0, 0x20, 0];
    assert(probe@ =~= version_probe());
    find_next(d, from, &probe)
}

fn run_end(d: &[u8], idx: usize, max: usize) -> (r: usize)
    requires
        idx <= max <= d@.len(),
    ensures
        r == unit_run_end(d@, idx as int, max as int),
{
    let mut end = idx;
    while end <= max && max - end >= 2 && read_u16(d, end).unwrap() >= 0x20
        invariant
            idx <= end <= max <= d@.len(),
            unit_run_end(d@, idx as int, max as int) == unit_run_end(d@, end as int, max as int),
        decreases max - end,
    {
        end += 2;
    }
    end
}

fn contains_text(entries: &Vec<String>, s: &Vec<char>) -> (r: bool)
    ensures
        r == texts(entries@).contains(s@),
{
    let mut i: usize = 0;
    while i < entries.len()
        invariant
            i <= entries@.len(),
            forall|k: int| 0 <= k < i ==> entries@[k]@ != s@,
        decreases entries@.len() - i,
    {
        if equals_str(s, entries[i].as_str()) {
            assert(texts(entries@)[i as int] == s@);
            return true;
        }
        i += 1;
    }
    proof {
        if texts(entries@).contains(s@) {
            let k = choose|k: int| 0 <= k < texts(entries@).len() && texts(entries@)[k] == s@;
            assert(entries@[k]@ == s@);
        }
    }
    false
}

impl DocumentHistory {
    /// The document history of decompressed `Global/Latest` bytes: every
    /// UTF-16LE string that begins with `"Revit "`, read up to a NUL or a
    /// control unit (at most 256 units), with trailing NUL, `/` and space
    /// dropped, each kept once in the order first seen. The strings are
    /// taken to begin 8 bytes before the first marker. Bytes without any
    /// marker give [`ObjectGraphError::NoVersionMarker`].
    pub fn from_decompressed(decomp: &[u8]) -> (r: Result<DocumentHistory, ObjectGraphError>)
        ensures
            r is Err <==> next_probe(decomp@, 0) is None,
            r matches Err(e) ==> e == ObjectGraphError::NoVersionMarker,
            r matches Ok(h) ==> {
                &&& next_probe(decomp@, 0) matches Some(first)
                &&& h.string_section_offset == (if first >= 8 { first - 8 } else { 0 })
                &&& texts(h.entries@) == history_from(decomp@, 0, Seq::empty())
            },
    {
        let first = match probe_from(decomp, 0) {
            Some(p) => p,
            None => {
                return Err(ObjectGraphError::NoVersionMarker);
            },
        };
        let string_section_offset = if first >= 8 { first - 8 } else { 0 };
        let len = decomp.len();
        let mut entries: Vec<String> = Vec::new();
        let mut scan: usize = 0;
        assert(texts(entries@) =~= Seq::<Seq<char>>::empty());
        while scan <= len && len - scan >= 12
            invariant
                len == decomp@.len(),
                history_from(decomp@, 0, Seq::empty()) == history_from(decomp@, scan as int, texts(entries@)),
            ensures
                history_from(decomp@, 0, Seq::empty()) == texts(entries@),
            decreases len - scan,
        {
            let idx = match probe_from(decomp, scan) {
                Some(p) => p,
                None => {
                    break;
                },
            };
            proof {
                lemma_next_occurrence_bounds(decomp@, version_probe(), scan as int);
            }
            let max_end = if len - idx >= 512 { idx + 512 } else { len };
            let end = run_end(decomp, idx, max_end);
            proof {
                lemma_unit_run_end_bounds(decomp@, idx as int, max_end as int);
            }
            let ghost before = texts(entries@);
            if end > idx {
                let body = &decomp[idx..end];
                assert(body@ == decomp@.subrange(idx as int, end as int));
                let text = decode_utf16le(body);
                let s = trim_end_chars(&chars_of(text.as_str()), false);
                if starts_with_str(&s, "Revit ") && !contains_text(&entries, &s) {
                    proof {
                        reveal_strlit("Revit ");
                        assert("Revit "@ =~= version_prefix());
                    }
                    entries.push(string_of(&s));
                    assert(texts(entries@) =~= before.push(s@));
                } else {
                    proof {
                        reveal_strlit("Revit ");
                        assert("Revit "@ =~= version_prefix());
                    }
                }
            }
            assert(texts(entries@) == add_new(before, history_entry(decomp@, idx as int, end as int)));
            scan = if end > idx + 1 { end } else { idx + 1 };
        }
        Ok(DocumentHistory { entries, string_section_offset })
    }
}

/// A length-prefixed UTF-16LE string record: `u32 tag · u32 count · count
/// UTF-16 units`.
#[derive(Debug, Clone)]
pub struct StringRecord {
    pub offset: usize,
    pub tag: u32,
    pub value: String,
}

/// What a [`StringRecord`] holds, as values.
pub struct StringRecordView {
    pub offset: int,
    pub tag: u32,
    pub value: Seq<char>,
}

impl View for StringRecord {
    type V = StringRecordView;

    open spec fn view(&self) -> StringRecordView {
        StringRecordView { offset: self.offset as int, tag: self.tag, value: self.value@ }
    }
}

/// The views of a list of records.
pub open spec fn record_views(v: Seq<StringRecord>) -> Seq<StringRecordView> {
    v.map_values(|r: StringRecord| r@)
}

/// A character a string record may hold: ASCII graphic, space, tab or
/// line feed.
pub open spec fn is_printable(c: char) -> bool {
    ('!' <= c <= '~') || c == ' ' || c == '\t' || c == '\n'
}

/// The value a record's decoded text gives: its text with trailing NUL,
/// `/`, space and tab dropped, when it holds no NUL, at least one character
/// and only printable ones.
pub open spec fn record_value(text: Seq<char>) -> Option<Seq<char>> {
    if !text.contains('\0') && text.len() >= 1 && forall|k: int|
        0 <= k < text.len() ==> is_printable(#[trigger] text[k]) {
        Some(trim_end_by(text, true))
    } else {
        None
    }
}

/// The record at `i`, with where the scan goes on after it.
pub open spec fn record_at(d: Seq<u8>, i: int) -> Option<(StringRecordView, int)> {
    let cnt = le_u32(d, i + 4);
    if 1 <= cnt <= 400 && i + 8 + 2 * cnt <= d.len() {
        match record_value(utf16le_text(d.subrange(i + 8, i + 8 + 2 * cnt))) {
            Some(v) => Some((StringRecordView { offset: i, tag: le_u32(d, i) as u32, value: v }, i + 8 + 2 * cnt)),
            None => None,
        }
    } else {
        None
    }
}

/// The records a scan from `i` finds: at each position whose tag and count
/// fit before the end, a record is taken and skipped over, or the scan
/// moves on one byte.
pub open spec fn records_from(d: Seq<u8>, i: int) -> Seq<StringRecordView>
    decreases d.len() - i,
{
    if i < 0 || i + 8 >= d.len() {
        Seq::empty()
    } else {
        match record_at(d, i) {
            Some((r, next)) => if next > i {
                seq![r] + records_from(d, next)
            } else {
                Seq::empty()
            },
            None => records_from(d, i + 1),
        }
    }
}

fn all_printable(t: &Vec<char>) -> (r: bool)
    ensures
        r == forall|k: int| 0 <= k < t@.len() ==> is_printable(#[trigger] t@[k]),
{
    let mut i: usize = 0;
    while i < t.len()
        invariant
            i <= t@.len(),
            forall|k: int| 0 <= k < i ==> is_printable(#[trigger] t@[k]),
        decreases t@.len() - i,
    {
        let c = t[i];
        if !(('!' <= c && c <= '~') || c == ' ' || c == '\t' || c == '\n') {
            assert(!is_printable(t@[i as int]));
            return false;
        }
        i += 1;
    }
    true
}

fn holds_nul(t: &Vec<char>) -> (r: bool)
    ensures
        r == t@.contains('\0'),
{
    let mut i: usize = 0;
    while i < t.len()
        invariant
            i <= t@.len(),
            forall|k: int| 0 <= k < i ==> t@[k] != '\0',
        decreases t@.len() - i,
    {
        if t[i] == '\0' {
            assert(t@[i as int] == '\0');
            return true;
        }
        i += 1;
    }
    false
}

/// Every length-prefixed UTF-16LE string record of decompressed stream
/// bytes, by offset: at every position, a `u32` tag and a count of 1 to
/// 400 units that fit the buffer and decode to printable text make a
/// record, and the scan goes on after it.
pub fn extract_string_records(decomp: &[u8]) -> (r: Vec<StringRecord>)
    ensures
        record_views(r@) == records_from(decomp@, 0),
{
    let len = decomp.len();
    let mut out: Vec<StringRecord> = Vec::new();
    let mut i: usize = 0;
    while i < len && len - i > 8
        invariant
            len == decomp@.len(),
            records_from(decomp@, 0) == record_views(out@) + records_from(decomp@, i as int),
        decreases len - i,
    {
        let tag = read_u32(decomp, i).unwrap();
        let cnt = read_u32(decomp, i + 4).unwrap() as usize;
        let ghost before = out@;
        if 1 <= cnt && cnt <= 400 && len - i - 8 >= 2 * cnt {
            let body = &decomp[i + 8..i + 8 + 2 * cnt];
            assert(body@ == decomp@.subrange(i + 8, i + 8 + 2 * cnt));
            let text = decode_utf16le(body);
            let chars = chars_of(text.as_str());
            if !holds_nul(&chars) && chars.len() >= 1 && all_printable(&chars) {
                let value = string_of(&trim_end_chars(&chars, true));
                out.push(StringRecord { offset: i, tag, value });
                proof {
                    let r = StringRecordView { offset: i as int, tag, value: value@ };
                    assert(record_at(decomp@, i as int) == Some((r, i + 8 + 2 * cnt)));
                    assert(record_views(out@) =~= record_views(before).push(r));
                    assert(record_views(out@) + records_from(decomp@, i + 8 + 2 * cnt) =~= record_views(before) + (seq![r]
                        + records_from(decomp@, i + 8 + 2 * cnt)));
                }
                i = i + 8 + 2 * cnt;
                continue;
            }
        }
        assert(record_at(decomp@, i as int) is None);
        i += 1;
    }
    assert(record_views(out@) + Seq::<StringRecordView>::empty() =~= record_views(out@));
    out
}

/// The bytes of inflated chunks joined with sixteen `ff` bytes between each
/// two.
pub open spec fn joined_chunks(chunks: Seq<Seq<u8>>) -> Seq<u8>
    decreases chunks.len(),
{
    if chunks.len() == 0 {
        Seq::empty()
    } else if chunks.len() == 1 {
        chunks[0]
    } else {
        joined_chunks(chunks.drop_last()) + Seq::new(16, |k: int| 0xffu8) + chunks.last()
    }
}

/// String records from the inflated gzip chunks of the version's
/// `Partitions/NN` stream, joined with sixteen `ff` bytes between chunks so
/// that no record runs from one chunk into the next.
pub fn string_records_from_partitions(chunks: &[Vec<u8>]) -> (r: Vec<StringRecord>)
    ensures
        record_views(r@) == records_from(joined_chunks(chunks@.map_values(|c: Vec<u8>| c@)), 0),
{
    let ghost cs = chunks@.map_values(|c: Vec<u8>| c@);
    let mut joined: Vec<u8> = Vec::new();
    let mut i: usize = 0;
    while i < chunks.len()
        invariant
            i <= chunks@.len(),
            cs == chunks@.map_values(|c: Vec<u8>| c@),
            joined@ == joined_chunks(cs.take(i as int)),
        decreases chunks@.len() - i,
    {
        let ghost before = joined@;
        if i > 0 {
            let mut k: usize = 0;
            while k < 16
                invariant
                    k <= 16,
                    joined@ == before + Seq::new(k as nat, |m: int| 0xffu8),
                decreases 16 - k,
            {
                joined.push(0xff);
                assert(joined@ =~= before + Seq::new((k + 1) as nat, |m: int| 0xffu8));
                k += 1;
            }
        }
        let ghost mid = joined@;
        let chunk = &chunks[i];
        let mut k: usize = 0;
        while k < chunk.len()
            invariant
                k <= chunk@.len(),
                joined@ == mid + chunk@.take(k as int),
            decreases chunk@.len() - k,
        {
            joined.push(chunk[k]);
            assert(chunk@.take(k + 1) =~= chunk@.take(k as int).push(chunk@[k as int]));
            k += 1;
        }
        proof {
            assert(chunk@.take(chunk@.len() as int) =~= chunk@);
            assert(cs.take(i + 1).drop_last() =~= cs.take(i as int));
            assert(cs[i as int] == chunk@);
            if i == 0 {
                assert(before =~= Seq::<u8>::empty());
                assert(joined@ =~= cs.take(1)[0]);
            } else {
                assert(joined@ =~= joined_chunks(cs.take(i as int)) + Seq::new(16, |m: int| 0xffu8) + cs.take(i + 1).last());
            }
        }
        i += 1;
    }
    assert(cs.take(cs.len() as int) =~= cs);
    extract_string_records(joined.as_slice())
}

proof fn lemma_records_from_ordered(d: Seq<u8>, i: int)
    ensures
        forall|k: int| 0 <= k < records_from(d, i).len() ==> i <= #[trigger] records_from(d, i)[k].offset,
        forall|a: int, b: int|
            0 <= a < b < records_from(d, i).len() ==> #[trigger] records_from(d, i)[a].offset
                < #[trigger] records_from(d, i)[b].offset,
    decreases d.len() - i,
{
    if !(i < 0 || i + 8 >= d.len()) {
        match record_at(d, i) {
            Some((r, next)) => {
                if next > i {
                    lemma_records_from_ordered(d, next);
                    let rest = records_from(d, next);
                    assert(records_from(d, i) == seq![r] + rest);
                    assert(r.offset == i);
                    assert(records_from(d, i)[0] == r);
                    assert forall|k: int| 0 <= k < records_from(d, i).len() implies i
                        <= #[trigger] records_from(d, i)[k].offset by {
                        if k > 0 {
                            assert(records_from(d, i)[k] == rest[k - 1]);
                        }
                    }
                    assert forall|a: int, b: int|
                        0 <= a < b < records_from(d, i).len() implies #[trigger] records_from(
                            d,
                            i,
                        )[a].offset < #[trigger] records_from(d, i)[b].offset by {
                        assert(records_from(d, i)[b] == rest[b - 1]);
                        if a > 0 {
                            assert(records_from(d, i)[a] == rest[a - 1]);
                        }
                    }
                }
            },
            None => {
                lemma_records_from_ordered(d, i + 1);
                assert(records_from(d, i) == records_from(d, i + 1));
            },
        }
    }
}

/// The string records of decompressed bytes come out in increasing offset
/// order.
pub proof fn string_records_in_offset_order(d: Seq<u8>)
    ensures
        forall|a: int, b: int|
            0 <= a < b < records_from(d, 0).len() ==> #[trigger] records_from(d, 0)[a].offset
                < #[trigger] records_from(d, 0)[b].offset,
{
    lemma_records_from_ordered(d, 0);
}

/// Whether every entry begins with `"Revit "` and none occurs twice.
pub open spec fn distinct_versions(entries: Seq<Seq<char>>) -> bool {
    &&& entries.no_duplicates()
    &&& forall|k: int| 0 <= k < entries.len() ==> starts_with(#[trigger] entries[k], version_prefix())
}

proof fn lemma_history_distinct(d: Seq<u8>, scan: int, entries: Seq<Seq<char>>)
    requires
        distinct_versions(entries),
    ensures
        distinct_versions(history_from(d, scan, entries)),
    decreases d.len() - scan,
{
    if !(scan < 0 || scan + 12 > d.len()) {
        match next_probe(d, scan) {
            None => {},
            Some(idx) => {
                lemma_next_occurrence_bounds(d, version_probe(), scan);
                let cap = if idx + 512 <= d.len() { idx + 512 } else { d.len() as int };
                lemma_unit_run_end_bounds(d, idx, cap);
                let end = history_run_end(d, idx);
                let next = if end > idx + 1 { end } else { idx + 1 };
                let added = add_new(entries, history_entry(d, idx, end));
                match history_entry(d, idx, end) {
                    Some(s) => {
                        if !entries.contains(s) {
                            assert forall|a: int, b: int|
                                0 <= a < b < added.len() implies added[a] != added[b] by {
                                if b == entries.len() {
                                    assert(entries[a] == added[a]);
                                }
                            }
                            assert forall|k: int| 0 <= k < added.len() implies starts_with(
                                #[trigger] added[k],
                                version_prefix(),
                            ) by {
                                if k < entries.len() {
                                    assert(added[k] == entries[k]);
                                }
                            }
                        }
                    },
                    None => {},
                }
                lemma_history_distinct(d, next, added);
            },
        }
    }
}

/// The document history holds each version string once, and every one of
/// them begins with `"Revit "`.
pub proof fn history_entries_distinct(d: Seq<u8>)
    ensures
        distinct_versions(history_from(d, 0, Seq::empty())),
{
    lemma_history_distinct(d, 0, Seq::empty());
}

} // verus!
