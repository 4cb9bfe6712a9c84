//! The strict / best-effort parse switch and the structured warning record
//! a best-effort parse accumulates.

use vstd::prelude::*;

verus! {

/// Parser-intent switch: `Strict` errors on any parse failure;
/// `BestEffort` collects diagnostics and returns partial results.
#[derive(Debug, Clone, Copy, PartialEq, Eq, Structural)]
pub enum ParseMode {
    Strict,
    BestEffort,
}

impl Default for ParseMode {
    /// Best effort is the default.
    fn default() -> (r: ParseMode)
        ensures
            r == ParseMode::BestEffort,
    {
        ParseMode::BestEffort
    }
}

/// A single warning accumulated during a best-effort parse.
#[derive(Debug, Clone)]
pub struct Warning {
    /// Short machine-readable code identifying the class of warning.
    pub code: String,
    /// Human-readable detail.
    pub message: String,
    /// Optional byte offset where the issue was observed.
    pub offset: Option<usize>,
}

impl Warning {
    /// A warning with a code and message and no offset.
    pub fn new(code: &str, message: &str) -> (w: Warning)
        ensures
            w.code@ == code@,
            w.message@ == message@,
            w.offset is None,
    {
        Warning { code: code.to_owned(), message: message.to_owned(), offset: None }
    }

    /// A warning with a code, message and byte offset.
    pub fn at(code: &str, message: &str, offset: usize) -> (w: Warning)
        ensures
            w.code@ == code@,
            w.message@ == message@,
            w.offset == Some(offset),
    {
        Warning { code: code.to_owned(), message: message.to_owned(), offset: Some(offset) }
    }
}

/// What a best-effort parse met on the way: warnings, skipped records,
/// streams that failed, fields read only in part, and the parser's
/// confidence.
#[derive(Debug)]
pub struct Diagnostics {
    pub warnings: Vec<Warning>,
    pub skipped_records: usize,
    pub failed_streams: Vec<String>,
    pub partial_fields: Vec<String>,
    /// The parser's confidence, 0 to 1, as the bits of an `f32`.
    pub confidence_bits: Option<u32>,
}

/// The texts of a list of strings.
pub open spec fn string_texts(v: Seq<String>) -> Seq<Seq<char>> {
    v.map_values(|s: String| s@)
}

impl Default for Diagnostics {
    /// Nothing met.
    fn default() -> (d: Diagnostics)
        ensures
            d.warnings@.len() == 0,
            d.skipped_records == 0,
            d.failed_streams@.len() == 0,
            d.partial_fields@.len() == 0,
            d.confidence_bits is None,
    {
        Diagnostics {
            warnings: Vec::new(),
            skipped_records: 0,
            failed_streams: Vec::new(),
            partial_fields: Vec::new(),
            confidence_bits: None,
        }
    }
}

impl Diagnostics {
    /// Whether nothing was met: no warning, skipped record, failed stream
    /// or partial field. The confidence does not count.
    pub open spec fn spec_is_empty(&self) -> bool {
        &&& self.warnings@.len() == 0
        &&& self.skipped_records == 0
        &&& self.failed_streams@.len() == 0
        &&& self.partial_fields@.len() == 0
    }

    /// Whether nothing was met.
    pub fn is_empty(&self) -> (r: bool)
        ensures
            r == self.spec_is_empty(),
    {
        self.warnings.len() == 0 && self.skipped_records == 0 && self.failed_streams.len() == 0
            && self.partial_fields.len() == 0
    }

    /// Add a warning.
    pub fn warn(&mut self, w: Warning)
        ensures
            final(self).warnings@ == old(self).warnings@.push(w),
            final(self).skipped_records == old(self).skipped_records,
            final(self).failed_streams@ == old(self).failed_streams@,
            final(self).partial_fields@ == old(self).partial_fields@,
            final(self).confidence_bits == old(self).confidence_bits,
    {
        self.warnings.push(w);
    }

    /// Record a stream that failed.
    pub fn fail_stream(&mut self, name: &str)
        ensures
            final(self).warnings@ == old(self).warnings@,
            final(self).skipped_records == old(self).skipped_records,
            string_texts(final(self).failed_streams@) == string_texts(old(self).failed_streams@).push(name@),
            final(self).partial_fields@ == old(self).partial_fields@,
            final(self).confidence_bits == old(self).confidence_bits,
    {
        let ghost before = self.failed_streams@;
        self.failed_streams.push(name.to_owned());
        assert(string_texts(self.failed_streams@) =~= string_texts(before).push(name@));
    }

    /// Record a field read only in part.
    pub fn partial_field(&mut self, name: &str)
        ensures
            final(self).warnings@ == old(self).warnings@,
            final(self).skipped_records == old(self).skipped_records,
            final(self).failed_streams@ == old(self).failed_streams@,
            string_texts(final(self).partial_fields@) == string_texts(old(self).partial_fields@).push(name@),
            final(self).confidence_bits == old(self).confidence_bits,
    {
        let ghost before = self.partial_fields@;
        self.partial_fields.push(name.to_owned());
        assert(string_texts(self.partial_fields@) =~= string_texts(before).push(name@));
    }

    /// Take in what `other` met: its warnings, failed streams and partial
    /// fields after these, its skipped records added, and its confidence
    /// when this has none.
    pub fn extend(&mut self, other: Diagnostics)
        requires
            old(self).skipped_records + other.skipped_records <= usize::MAX,
        ensures
            final(self).warnings@ == old(self).warnings@ + other.warnings@,
            final(self).skipped_records == old(self).skipped_records + other.skipped_records,
            final(self).failed_streams@ == old(self).failed_streams@ + other.failed_streams@,
            final(self).partial_fields@ == old(self).partial_fields@ + other.partial_fields@,
            final(self).confidence_bits == (match old(self).confidence_bits {
                Some(c) => Some(c),
                None => other.confidence_bits,
            }),
    {
        let mut other = other;
        self.warnings.append(&mut other.warnings);
        self.skipped_records = self.skipped_records + other.skipped_records;
        self.failed_streams.append(&mut other.failed_streams);
        self.partial_fields.append(&mut other.partial_fields);
        if self.confidence_bits.is_none() {
            self.confidence_bits = other.confidence_bits;
        }
    }
}

/// A value a parse produced, with what it met and whether it is whole.
#[derive(Debug)]
pub struct Decoded<T> {
    pub value: T,
    pub diagnostics: Diagnostics,
    pub complete: bool,
}

impl<T> Decoded<T> {
    /// A whole value, nothing met.
    pub fn complete(value: T) -> (d: Decoded<T>)
        ensures
            d.value == value,
            d.complete,
            d.diagnostics.spec_is_empty(),
            d.diagnostics.confidence_bits is None,
    {
        Decoded { value, diagnostics: Diagnostics::default(), complete: true }
    }

    /// A value read in part, with what the parse met.
    pub fn partial(value: T, diagnostics: Diagnostics) -> (d: Decoded<T>)
        ensures
            d.value == value,
            !d.complete,
            d.diagnostics == diagnostics,
    {
        Decoded { value, diagnostics, complete: false }
    }

    /// The value mapped through `f`, the diagnostics and completeness kept.
    pub fn map<U, F: FnOnce(T) -> U>(self, f: F) -> (d: Decoded<U>)
        requires
            f.requires((self.value,)),
        ensures
            f.ensures((self.value,), d.value),
            d.diagnostics == self.diagnostics,
            d.complete == self.complete,
    {
        Decoded { value: f(self.value), diagnostics: self.diagnostics, complete: self.complete }
    }

    /// Whole and nothing met: what a strict parse would accept.
    pub fn is_clean(&self) -> (r: bool)
        ensures
            r == (self.complete && self.diagnostics.spec_is_empty()),
    {
        self.complete && self.diagnostics.is_empty()
    }
}

} // verus!
