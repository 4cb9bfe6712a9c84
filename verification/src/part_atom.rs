//! The PartAtom document of a Revit family: title, id, update time,
//! taxonomies and categories, and its Atom XML encoding.

use vstd::prelude::*;
use vstd::string::*;
use vstd::utf8::{decode_utf8, encode_utf8, valid_utf8};
use quick_xml::events::Event;
use crate::text::{chars_of, equals_str, push_char, string_of, trim, trim_chars};

verus! {

/// A taxonomy entry: term and label.
#[derive(Debug, Clone)]
pub struct Taxonomy {
    pub term: String,
    pub label: String,
}

/// A category entry: term and optional scheme.
#[derive(Debug, Clone)]
pub struct Category {
    pub term: String,
    pub scheme: Option<String>,
}

/// The PartAtom fields a family document carries.
#[derive(Debug, Clone)]
pub struct PartAtom {
    pub title: Option<String>,
    pub id: Option<String>,
    pub updated: Option<String>,
    pub taxonomies: Vec<Taxonomy>,
    pub categories: Vec<Category>,
    /// Autodesk OmniClass code (e.g. `23.40.20.14.17` = Furniture).
    pub omniclass: Option<String>,
    /// Raw XML for lossless pass-through.
    pub raw_xml: String,
}

impl Default for PartAtom {
    /// Every field absent or empty.
    fn default() -> (a: PartAtom)
        ensures
            a.title is None,
            a.id is None,
            a.updated is None,
            a.taxonomies@.len() == 0,
            a.categories@.len() == 0,
            a.omniclass is None,
            a.raw_xml@ == Seq::<char>::empty(),
    {
        PartAtom {
            title: None,
            id: None,
            updated: None,
            taxonomies: Vec::new(),
            categories: Vec::new(),
            omniclass: None,
            raw_xml: String::new(),
        }
    }
}

/// The XML escape of one character: the five reserved characters become
/// their entity references, any other character stays.
pub open spec fn escape_char(c: char) -> Seq<char> {
    if c == '&' {
        "&amp;"@
    } else if c == '<' {
        "&lt;"@
    } else if c == '>' {
        "&gt;"@
    } else if c == '"' {
        "&quot;"@
    } else if c == '\'' {
        "&apos;"@
    } else {
        seq![c]
    }
}

/// The XML escape of a character sequence.
pub open spec fn escape(s: Seq<char>) -> Seq<char>
    decreases s.len(),
{
    if s.len() == 0 {
        Seq::empty()
    } else {
        escape(s.drop_last()) + escape_char(s.last())
    }
}

/// Escape the five XML-reserved characters of `s`.
pub fn xml_escape_text(s: &str) -> (r: String)
    ensures
        r@ == escape(s@),
{
    let chars = crate::text::chars_of(s);
    let mut out = String::new();
    let mut i: usize = 0;
    while i < chars.len()
        invariant
            i <= chars@.len(),
            chars@ == s@,
            out@ == escape(chars@.subrange(0, i as int)),
        decreases chars@.len() - i,
    {
        let c = chars[i];
        if c == '&' {
            out.append("&amp;");
        } else if c == '<' {
            out.append("&lt;");
        } else if c == '>' {
            out.append("&gt;");
        } else if c == '"' {
            out.append("&quot;");
        } else if c == '\'' {
            out.append("&apos;");
        } else {
            push_char(&mut out, c);
        }
        proof {
            let next = chars@.subrange(0, i + 1);
            assert(next.drop_last() =~= chars@.subrange(0, i as int));
            assert(next.last() == c);
        }
        i += 1;
    }
    assert(chars@.subrange(0, chars@.len() as int) =~= s@);
    out
}

/// Whether a character is one that markup gives meaning to in text or
/// attribute values.
pub open spec fn markup_char(c: char) -> bool {
    c == '<' || c == '>' || c == '"' || c == '\''
}

/// Escaped text holds no `<`, `>`, `"` or `'`: the reserved characters
/// appear only as entity references.
pub proof fn escaped_text_has_no_markup(s: Seq<char>)
    ensures
        forall|k: int| 0 <= k < escape(s).len() ==> !markup_char(#[trigger] escape(s)[k]),
    decreases s.len(),
{
    reveal_strlit("&amp;");
    reveal_strlit("&lt;");
    reveal_strlit("&gt;");
    reveal_strlit("&quot;");
    reveal_strlit("&apos;");
    if s.len() > 0 {
        escaped_text_has_no_markup(s.drop_last());
        let front = escape(s.drop_last());
        let tail = escape_char(s.last());
        assert(escape(s) == front + tail);
        assert forall|k: int| 0 <= k < escape(s).len() implies !markup_char(#[trigger] escape(s)[k]) by {
            if k >= front.len() {
                assert(escape(s)[k] == tail[k - front.len()]);
            } else {
                assert(escape(s)[k] == front[k]);
            }
        }
    }
}

/// Text without any of the five reserved characters escapes to itself.
pub proof fn plain_text_escapes_to_itself(s: Seq<char>)
    requires
        forall|k: int| 0 <= k < s.len() ==> !markup_char(#[trigger] s[k]) && s[k] != '&',
    ensures
        escape(s) == s,
    decreases s.len(),
{
    if s.len() > 0 {
        assert(s[s.len() - 1] == s.last());
        plain_text_escapes_to_itself(s.drop_last());
        assert(escape(s) =~= s.drop_last().push(s.last()));
        assert(s.drop_last().push(s.last()) =~= s);
    }
}

/// An optional element: `open`, the escaped value, `close`; nothing when
/// the value is absent.
pub open spec fn optional_element(open: Seq<char>, value: Option<String>, close: Seq<char>) -> Seq<
    char,
> {
    match value {
        Some(v) => open + escape(v@) + close,
        None => Seq::empty(),
    }
}

/// The taxonomy lines of `t`.
pub open spec fn taxonomy_lines(t: Seq<Taxonomy>) -> Seq<char>
    decreases t.len(),
{
    if t.len() == 0 {
        Seq::empty()
    } else {
        let last = t.last();
        taxonomy_lines(t.drop_last()) + "  <A:taxonomy><term>"@ + escape(last.term@)
            + "</term><label>"@ + escape(last.label@) + "</label></A:taxonomy>\n"@
    }
}

/// The category lines of `c`.
pub open spec fn category_lines(c: Seq<Category>) -> Seq<char>
    decreases c.len(),
{
    if c.len() == 0 {
        Seq::empty()
    } else {
        let last = c.last();
        category_lines(c.drop_last()) + "  <category"@ + (match last.scheme {
            Some(s) => " scheme=\""@ + escape(s@) + seq!['"'],
            None => Seq::empty(),
        }) + "><term>"@ + escape(last.term@) + "</term></category>\n"@
    }
}

/// The Atom XML text of an atom, before UTF-8 encoding.
pub open spec fn atom_text(a: PartAtom) -> Seq<char> {
    "<?xml version=\"1.0\" encoding=\"UTF-8\"?>\n"@
        + "<entry xmlns=\"http://www.w3.org/2005/Atom\" xmlns:A=\"urn:schemas-autodesk-com:partatom\">\n"@
        + optional_element("  <title>"@, a.title, "</title>\n"@) + optional_element(
        "  <id>"@,
        a.id,
        "</id>\n"@,
    ) + optional_element("  <updated>"@, a.updated, "</updated>\n"@) + taxonomy_lines(
        a.taxonomies@,
    ) + category_lines(a.categories@) + omniclass_line(a) + "</entry>\n"@
}

/// The `A:omniclass` line of an atom: none when its categories already
/// give its OmniClass code (the first OmniClass-shaped term), else the
/// element holding the escaped code, or nothing when it has none.
pub open spec fn omniclass_line(a: PartAtom) -> Seq<char> {
    if opt_text(a.omniclass) == first_omniclass(category_values(a.categories@)) {
        Seq::empty()
    } else {
        "  <A:omniclass>"@ + (match a.omniclass {
            Some(x) => escape(x@),
            None => Seq::empty(),
        }) + "</A:omniclass>\n"@
    }
}

/// The first OmniClass-shaped category term.
fn first_omniclass_term(categories: &Vec<Category>) -> (r: Option<String>)
    ensures
        opt_text(r) == first_omniclass(category_values(categories@)),
{
    let ghost all = category_values(categories@);
    let mut found: Option<String> = None;
    let mut i: usize = 0;
    while i < categories.len()
        invariant
            i <= categories@.len(),
            all == category_values(categories@),
            opt_text(found) == first_omniclass(all.take(i as int)),
        decreases categories@.len() - i,
    {
        proof {
            assert(all.take(i + 1).drop_last() =~= all.take(i as int));
            assert(all.take(i + 1).last() == all[i as int]);
        }
        if found.is_none() && omniclass_code(&categories[i].term) {
            found = Some(copy_text(&categories[i].term));
        }
        i += 1;
    }
    assert(all.take(categories@.len() as int) =~= all);
    found
}

fn append_optional(out: &mut String, open: &str, value: &Option<String>, close: &str)
    ensures
        final(out)@ == old(out)@ + optional_element(open@, *value, close@),
{
    match value {
        Some(v) => {
            out.append(open);
            let escaped = xml_escape_text(v.as_str());
            out.append(escaped.as_str());
            out.append(close);
        },
        None => {
            assert(old(out)@ + Seq::<char>::empty() =~= old(out)@);
        },
    }
}

impl PartAtom {
    /// The Atom XML encoding of this atom, as UTF-8 bytes: the XML prolog,
    /// the `entry` element with the Atom and PartAtom namespaces, one line
    /// per present title / id / updated, per taxonomy and per category
    /// (the scheme as an attribute when present), and an `A:omniclass` line
    /// when the atom's OmniClass code is not the first OmniClass-shaped
    /// category term (empty when it has none), all text XML-escaped.
    /// [`PartAtom::from_bytes`] reads the atom back (see
    /// [`decoding_encoded_bytes_gives_the_atom_back`]).
    pub fn encode(&self) -> (r: Vec<u8>)
        ensures
            r@ == vstd::utf8::encode_utf8(atom_text(*self)),
    {
        let mut out = String::new();
        out.append("<?xml version=\"1.0\" encoding=\"UTF-8\"?>\n");
        out.append(
            "<entry xmlns=\"http://www.w3.org/2005/Atom\" xmlns:A=\"urn:schemas-autodesk-com:partatom\">\n",
        );
        append_optional(&mut out, "  <title>", &self.title, "</title>\n");
        append_optional(&mut out, "  <id>", &self.id, "</id>\n");
        append_optional(&mut out, "  <updated>", &self.updated, "</updated>\n");
        let ghost head = out@;
        let mut i: usize = 0;
        while i < self.taxonomies.len()
            invariant
                i <= self.taxonomies@.len(),
                out@ == head + taxonomy_lines(self.taxonomies@.subrange(0, i as int)),
            decreases self.taxonomies@.len() - i,
        {
            let tax = &self.taxonomies[i];
            out.append("  <A:taxonomy><term>");
            let term = xml_escape_text(tax.term.as_str());
            out.append(term.as_str());
            out.append("</term><label>");
            let label = xml_escape_text(tax.label.as_str());
            out.append(label.as_str());
            out.append("</label></A:taxonomy>\n");
            proof {
                let next = self.taxonomies@.subrange(0, i + 1);
                assert(next.drop_last() =~= self.taxonomies@.subrange(0, i as int));
                assert(next.last() == *tax);
            }
            i += 1;
        }
        assert(self.taxonomies@.subrange(0, self.taxonomies@.len() as int) =~= self.taxonomies@);
        let ghost mid = out@;
        let mut j: usize = 0;
        while j < self.categories.len()
            invariant
                j <= self.categories@.len(),
                out@ == mid + category_lines(self.categories@.subrange(0, j as int)),
            decreases self.categories@.len() - j,
        {
            let cat = &self.categories[j];
            let ghost before = out@;
            out.append("  <category");
            let ghost after_open = out@;
            match &cat.scheme {
                Some(scheme) => {
                    out.append(" scheme=\"");
                    let escaped = xml_escape_text(scheme.as_str());
                    out.append(escaped.as_str());
                    push_char(&mut out, '"');
                },
                None => {},
            }
            proof {
                let part = match &cat.scheme {
                    Some(s) => " scheme=\""@ + escape(s@) + seq!['"'],
                    None => Seq::<char>::empty(),
                };
                assert(out@ =~= after_open + part);
            }
            out.append("><term>");
            let term = xml_escape_text(cat.term.as_str());
            out.append(term.as_str());
            out.append("</term></category>\n");
            proof {
                let next = self.categories@.subrange(0, j + 1);
                assert(next.drop_last() =~= self.categories@.subrange(0, j as int));
                assert(next.last() == *cat);
            }
            j += 1;
        }
        assert(self.categories@.subrange(0, self.categories@.len() as int) =~= self.categories@);
        let derived = first_omniclass_term(&self.categories);
        let given = match (&self.omniclass, &derived) {
            (Some(x), Some(d)) => equals_str(&chars_of(x.as_str()), d.as_str()),
            (None, None) => true,
            _ => false,
        };
        let ghost before_line = out@;
        if !given {
            out.append("  <A:omniclass>");
            match &self.omniclass {
                Some(x) => {
                    let escaped = xml_escape_text(x.as_str());
                    out.append(escaped.as_str());
                },
                None => {},
            }
            out.append("</A:omniclass>\n");
        }
        proof {
            assert(out@ =~= before_line + omniclass_line(*self));
        }
        out.append("</entry>\n");
        let bytes = out.as_str().as_bytes();
        let mut v: Vec<u8> = Vec::new();
        let mut k: usize = 0;
        while k < bytes.len()
            invariant
                k <= bytes@.len(),
                v@ == bytes@.subrange(0, k as int),
            decreases bytes@.len() - k,
        {
            v.push(bytes[k]);
            assert(bytes@.subrange(0, k + 1) =~= bytes@.subrange(0, k as int).push(bytes@[k as int]));
            k += 1;
        }
        assert(bytes@.subrange(0, bytes@.len() as int) =~= bytes@);
        v
    }
}

/// The text a PartAtom document routes the next text to.
#[derive(Debug, Clone, Copy, PartialEq, Eq, Structural)]
pub enum AtomField {
    Top,
    Title,
    Id,
    Updated,
    TaxonomyTerm,
    TaxonomyLabel,
    Omniclass,
}

/// A PartAtom document read so far, event by event.
#[derive(Debug)]
pub struct PartAtomReader {
    /// What has been read.
    pub atom: PartAtom,
    /// Where text goes.
    pub field: AtomField,
    /// The taxonomy open at the moment, if any.
    pub taxonomy: Option<Taxonomy>,
    /// The term of the category open at the moment.
    pub category_term: Option<String>,
    /// The scheme of the category open at the moment.
    pub category_scheme: Option<String>,
}

/// `name` after its first `:`, or all of it without one.
pub open spec fn after_first_colon(name: Seq<char>) -> Seq<char> {
    if exists|i: int| 0 <= i < name.len() && name[i] == ':' {
        let i = choose|i: int| 0 <= i < name.len() && name[i] == ':' && forall|j: int| 0 <= j < i ==> name[j] != ':';
        name.skip(i + 1)
    } else {
        name
    }
}

/// `name` after its last `:`, or all of it without one.
pub open spec fn after_last_colon(name: Seq<char>) -> Seq<char> {
    if exists|i: int| 0 <= i < name.len() && name[i] == ':' {
        let i = choose|i: int| 0 <= i < name.len() && name[i] == ':' && forall|j: int| i < j < name.len() ==> name[j] != ':';
        name.skip(i + 1)
    } else {
        name
    }
}

fn local_name(name: &str, last: bool) -> (r: Vec<char>)
    ensures
        !last ==> r@ == after_first_colon(name@),
        last ==> r@ == after_last_colon(name@),
{
    let chars = chars_of(name);
    let n = chars.len();
    let mut found: Option<usize> = None;
    let mut i: usize = 0;
    while i < n
        invariant
            i <= n == chars@.len(),
            chars@ == name@,
            match found {
                None => forall|j: int| 0 <= j < i ==> chars@[j] != ':',
                Some(p) => p < i && chars@[p as int] == ':' && (!last ==> forall|j: int| 0 <= j < p ==> chars@[j]
                    != ':') && (last ==> forall|j: int| p < j < i ==> chars@[j] != ':'),
            },
        decreases n - i,
    {
        if chars[i] == ':' && (last || found.is_none()) {
            found = Some(i);
        }
        i += 1;
    }
    let start = match found {
        Some(p) => p + 1,
        None => 0,
    };
    let mut out: Vec<char> = Vec::new();
    let mut k: usize = start;
    while k < n
        invariant
            start <= k <= n == chars@.len(),
            out@ == chars@.subrange(start as int, k as int),
        decreases n - k,
    {
        out.push(chars[k]);
        assert(chars@.subrange(start as int, k + 1) =~= chars@.subrange(start as int, k as int).push(chars@[k as int]));
        k += 1;
    }
    proof {
        match found {
            Some(p) => {
                if !last {
                    let c = choose|c: int| 0 <= c < name@.len() && name@[c] == ':' && forall|j: int| 0 <= j < c ==> name@[j] != ':';
                    assert(c == p) by {
                        if c < p {
                            assert(chars@[c] != ':');
                        } else if p < c {
                            assert(name@[p as int] == ':');
                        }
                    }
                } else {
                    let c = choose|c: int| 0 <= c < name@.len() && name@[c] == ':' && forall|j: int| c < j < name@.len() ==> name@[j] != ':';
                    assert(c == p) by {
                        if c < p {
                            assert(name@[p as int] == ':');
                        } else if p < c {
                            assert(chars@[c] != ':');
                        }
                    }
                }
            },
            None => {},
        }
        assert(chars@.subrange(start as int, n as int) =~= chars@.skip(start as int));
        if found is None {
            assert(chars@.skip(0) =~= chars@);
        }
    }
    out
}

/// Whether a category term is an OmniClass code: only ASCII digits and
/// dots, with at least one dot.
pub open spec fn is_omniclass(term: Seq<char>) -> bool {
    &&& forall|k: int| 0 <= k < term.len() ==> ('0' <= #[trigger] term[k] <= '9' || term[k] == '.')
    &&& exists|k: int| 0 <= k < term.len() && term[k] == '.'
}

fn omniclass_code(term: &String) -> (r: bool)
    ensures
        r == is_omniclass(term@),
{
    let chars = chars_of(term.as_str());
    let mut dot = false;
    let mut i: usize = 0;
    while i < chars.len()
        invariant
            i <= chars@.len(),
            chars@ == term@,
            forall|k: int| 0 <= k < i ==> ('0' <= #[trigger] chars@[k] <= '9' || chars@[k] == '.'),
            dot <==> exists|k: int| 0 <= k < i && chars@[k] == '.',
        decreases chars@.len() - i,
    {
        let c = chars[i];
        if !(('0' <= c && c <= '9') || c == '.') {
            assert(!('0' <= chars@[i as int] <= '9' || chars@[i as int] == '.'));
            return false;
        }
        if c == '.' {
            dot = true;
        }
        i += 1;
    }
    dot
}

fn copy_text(s: &String) -> (r: String)
    ensures
        r@ == s@,
{
    s.clone()
}

impl PartAtomReader {
    /// A reader of the document `raw_xml`, nothing read yet.
    pub fn new(raw_xml: String) -> (r: PartAtomReader)
        ensures
            r.atom.title is None,
            r.atom.id is None,
            r.atom.updated is None,
            r.atom.taxonomies@.len() == 0,
            r.atom.categories@.len() == 0,
            r.atom.omniclass is None,
            r.atom.raw_xml@ == raw_xml@,
            r.field == AtomField::Top,
            r.taxonomy is None,
            r.category_term is None,
            r.category_scheme is None,
            read_state(r) == fresh_state(),
    {
        let mut atom = PartAtom::default();
        atom.raw_xml = raw_xml;
        let r = PartAtomReader { atom, field: AtomField::Top, taxonomy: None, category_term: None, category_scheme: None };
        assert(atom_value(r.atom).taxonomies =~= Seq::<(Seq<char>, Seq<char>)>::empty());
        assert(atom_value(r.atom).categories =~= Seq::<(Seq<char>, Option<Seq<char>>)>::empty());
        r
    }

    /// An element opens. Its name's part after the first `:` says where
    /// text goes next; `taxonomy` opens an empty taxonomy, `category`
    /// takes the first of `attributes` keyed `scheme` as its scheme and
    /// starts without a term, and `omniclass` clears the OmniClass code,
    /// which its text, if any, then sets.
    pub fn start(&mut self, name: &str, attributes: &Vec<(String, String)>)
        ensures
            ({
                let local = after_first_colon(name@);
                &&& local != "omniclass"@ ==> final(self).atom == old(self).atom
                &&& local == "omniclass"@ ==> final(self).atom == PartAtom { omniclass: None, ..old(self).atom }
                &&& final(self).field == (if local == "title"@ {
                    AtomField::Title
                } else if local == "id"@ {
                    AtomField::Id
                } else if local == "updated"@ {
                    AtomField::Updated
                } else if local == "term"@ {
                    AtomField::TaxonomyTerm
                } else if local == "label"@ {
                    AtomField::TaxonomyLabel
                } else if local == "omniclass"@ {
                    AtomField::Omniclass
                } else {
                    old(self).field
                })
                &&& local == "taxonomy"@ ==> taxonomy_text(final(self).taxonomy) == Some((Seq::<char>::empty(), Seq::<char>::empty()))
                &&& local != "taxonomy"@ ==> final(self).taxonomy == old(self).taxonomy
                &&& local == "category"@ ==> final(self).category_term is None && opt_text(final(self).category_scheme)
                    == first_value(attributes@, "scheme"@)
                &&& local != "category"@ ==> final(self).category_term == old(self).category_term
                    && final(self).category_scheme == old(self).category_scheme
            }),
            read_state(*final(self)) == start_step(read_state(*old(self)), name@, attribute_values(attributes@)),
    {
        proof {
            lemma_first_value(attributes@, "scheme"@);
            reveal_strlit("title");
            reveal_strlit("id");
            reveal_strlit("updated");
            reveal_strlit("term");
            reveal_strlit("label");
            reveal_strlit("taxonomy");
            reveal_strlit("category");
            reveal_strlit("omniclass");
            assert("title"@.len() == 5 && "id"@.len() == 2 && "updated"@.len() == 7);
            assert("term"@.len() == 4 && "label"@.len() == 5 && "taxonomy"@.len() == 8);
            assert("category"@.len() == 8 && "title"@[0] != "label"@[0]);
            assert("taxonomy"@[0] != "category"@[0] && "omniclass"@.len() == 9);
        }
        let local = local_name(name, false);
        if equals_str(&local, "title") {
            self.field = AtomField::Title;
        } else if equals_str(&local, "id") {
            self.field = AtomField::Id;
        } else if equals_str(&local, "updated") {
            self.field = AtomField::Updated;
        } else if equals_str(&local, "taxonomy") {
            self.taxonomy = Some(Taxonomy { term: String::new(), label: String::new() });
        } else if equals_str(&local, "term") {
            self.field = AtomField::TaxonomyTerm;
        } else if equals_str(&local, "label") {
            self.field = AtomField::TaxonomyLabel;
        } else if equals_str(&local, "category") {
            self.category_scheme = scheme_of(attributes);
            self.category_term = None;
        } else if equals_str(&local, "omniclass") {
            self.field = AtomField::Omniclass;
            self.atom.omniclass = None;
        }
    }

    /// Text inside the current element, already unescaped. It is trimmed of
    /// white space; empty text is ignored. Otherwise it becomes the title,
    /// id or update time, the open taxonomy's term or label, the open
    /// category's term, or the OmniClass code, as the current field says.
    pub fn text(&mut self, text: &str)
        ensures
            ({
                let t = trim(text@);
                if t.len() == 0 {
                    *final(self) == *old(self)
                } else {
                    &&& final(self).field == old(self).field
                    &&& final(self).atom.taxonomies == old(self).atom.taxonomies
                    &&& final(self).atom.categories == old(self).atom.categories
                    &&& opt_text(final(self).atom.omniclass) == (if old(self).field == AtomField::Omniclass { Some(t) } else { opt_text(old(self).atom.omniclass) })
                    &&& final(self).atom.raw_xml == old(self).atom.raw_xml
                    &&& final(self).category_scheme == old(self).category_scheme
                    &&& opt_text(final(self).atom.title) == (if old(self).field == AtomField::Title { Some(t) } else { opt_text(old(self).atom.title) })
                    &&& opt_text(final(self).atom.id) == (if old(self).field == AtomField::Id { Some(t) } else { opt_text(old(self).atom.id) })
                    &&& opt_text(final(self).atom.updated) == (if old(self).field == AtomField::Updated { Some(t) } else { opt_text(old(self).atom.updated) })
                    &&& taxonomy_text(final(self).taxonomy) == (match old(self).taxonomy {
                        Some(tx) => if old(self).field == AtomField::TaxonomyTerm {
                            Some((t, tx.label@))
                        } else if old(self).field == AtomField::TaxonomyLabel {
                            Some((tx.term@, t))
                        } else {
                            Some((tx.term@, tx.label@))
                        },
                        None => None,
                    })
                    &&& opt_text(final(self).category_term) == (if old(self).field == AtomField::TaxonomyTerm
                        && old(self).taxonomy is None { Some(t) } else { opt_text(old(self).category_term) })
                }
            }),
            read_state(*final(self)) == text_step(read_state(*old(self)), text@),
    {
        let trimmed = trim_chars(&chars_of(text));
        if trimmed.len() == 0 {
            return;
        }
        let value = string_of(&trimmed);
        match self.field {
            AtomField::Title => {
                self.atom.title = Some(value);
            },
            AtomField::Id => {
                self.atom.id = Some(value);
            },
            AtomField::Updated => {
                self.atom.updated = Some(value);
            },
            AtomField::TaxonomyTerm => {
                match self.taxonomy.take() {
                    Some(tx) => {
                        self.taxonomy = Some(Taxonomy { term: value, label: tx.label });
                    },
                    None => {
                        self.category_term = Some(value);
                    },
                }
            },
            AtomField::TaxonomyLabel => {
                match self.taxonomy.take() {
                    Some(tx) => {
                        self.taxonomy = Some(Taxonomy { term: tx.term, label: value });
                    },
                    None => {},
                }
            },
            AtomField::Omniclass => {
                self.atom.omniclass = Some(value);
            },
            AtomField::Top => {},
        }
    }

    /// An element closes. A closing `taxonomy` (its name's part after the
    /// last `:`) adds the open taxonomy; a closing `category` adds the open
    /// category when it has a term, the first OmniClass-shaped term also
    /// becoming the atom's OmniClass code, and closes it. Text goes nowhere
    /// until the next element opens.
    pub fn end(&mut self, name: &str)
        ensures
            ({
                let local = after_last_colon(name@);
                &&& final(self).field == AtomField::Top
                &&& final(self).atom.title == old(self).atom.title
                &&& final(self).atom.id == old(self).atom.id
                &&& final(self).atom.updated == old(self).atom.updated
                &&& final(self).atom.raw_xml == old(self).atom.raw_xml
                &&& local == "taxonomy"@ ==> final(self).taxonomy is None && final(self).atom.taxonomies@ == (match old(self).taxonomy {
                    Some(t) => old(self).atom.taxonomies@.push(t),
                    None => old(self).atom.taxonomies@,
                })
                &&& local != "taxonomy"@ ==> final(self).taxonomy == old(self).taxonomy && final(self).atom.taxonomies == old(self).atom.taxonomies
                &&& local == "category"@ ==> {
                    &&& final(self).category_term is None
                    &&& final(self).category_scheme is None
                    &&& match old(self).category_term {
                        Some(term) => {
                            &&& final(self).atom.categories@.len() == old(self).atom.categories@.len() + 1
                            &&& final(self).atom.categories@.drop_last() == old(self).atom.categories@
                            &&& final(self).atom.categories@.last().term@ == term@
                            &&& opt_text(final(self).atom.categories@.last().scheme) == opt_text(old(self).category_scheme)
                            &&& opt_text(final(self).atom.omniclass) == (if is_omniclass(term@) && old(self).atom.omniclass is None {
                                Some(term@)
                            } else {
                                opt_text(old(self).atom.omniclass)
                            })
                        },
                        None => final(self).atom.categories == old(self).atom.categories
                            && final(self).atom.omniclass == old(self).atom.omniclass,
                    }
                }
                &&& local != "category"@ ==> final(self).category_term == old(self).category_term
                    && final(self).category_scheme == old(self).category_scheme
                    && final(self).atom.categories == old(self).atom.categories
                    && final(self).atom.omniclass == old(self).atom.omniclass
            }),
            read_state(*final(self)) == end_step(read_state(*old(self)), name@),
    {
        proof {
            reveal_strlit("taxonomy");
            reveal_strlit("category");
            assert("taxonomy"@[0] != "category"@[0]);
        }
        let ghost before = read_state(*self);
        let local = local_name(name, true);
        if equals_str(&local, "taxonomy") {
            match self.taxonomy.take() {
                Some(t) => {
                    let ghost tv = (t.term@, t.label@);
                    self.atom.taxonomies.push(t);
                    assert(atom_value(self.atom).taxonomies =~= before.atom.taxonomies.push(tv));
                },
                None => {},
            }
        } else if equals_str(&local, "category") {
            match self.category_term.take() {
                Some(term) => {
                    if omniclass_code(&term) && self.atom.omniclass.is_none() {
                        self.atom.omniclass = Some(copy_text(&term));
                    }
                    let scheme = match &self.category_scheme {
                        Some(s) => Some(copy_text(s)),
                        None => None,
                    };
                    let ghost cv = (term@, opt_text(scheme));
                    self.atom.categories.push(Category { term, scheme });
                    assert(atom_value(self.atom).categories =~= before.atom.categories.push(cv));
                },
                None => {},
            }
            self.category_scheme = None;
        }
        self.field = AtomField::Top;
    }

    /// The atom read.
    pub fn finish(self) -> (r: PartAtom)
        ensures
            r == self.atom,
    {
        self.atom
    }
}

/// The text of an optional string.
pub open spec fn opt_text(o: Option<String>) -> Option<Seq<char>> {
    match o {
        Some(s) => Some(s@),
        None => None,
    }
}

/// The term and label of an optional taxonomy.
pub open spec fn taxonomy_text(o: Option<Taxonomy>) -> Option<(Seq<char>, Seq<char>)> {
    match o {
        Some(t) => Some((t.term@, t.label@)),
        None => None,
    }
}

/// The value of the first attribute keyed `key`.
pub open spec fn first_value(attributes: Seq<(String, String)>, key: Seq<char>) -> Option<Seq<char>>
    decreases attributes.len(),
{
    if attributes.len() == 0 {
        None
    } else if attributes[0].0@ == key {
        Some(attributes[0].1@)
    } else {
        first_value(attributes.drop_first(), key)
    }
}

fn scheme_of(attributes: &Vec<(String, String)>) -> (r: Option<String>)
    ensures
        opt_text(r) == first_value(attributes@, "scheme"@),
{
    let mut i: usize = 0;
    assert(attributes@.skip(0) =~= attributes@);
    while i < attributes.len()
        invariant
            i <= attributes@.len(),
            first_value(attributes@, "scheme"@) == first_value(attributes@.skip(i as int), "scheme"@),
        decreases attributes@.len() - i,
    {
        let key = chars_of(attributes[i].0.as_str());
        if equals_str(&key, "scheme") {
            assert(attributes@.skip(i as int)[0] == attributes@[i as int]);
            return Some(copy_text(&attributes[i].1));
        }
        assert(attributes@.skip(i as int).drop_first() =~= attributes@.skip(i + 1));
        i += 1;
    }
    None
}

/// An atom as values: title, id, update time, taxonomies as
/// `(term, label)`, categories as `(term, scheme)`, and OmniClass code.
pub struct AtomValue {
    pub title: Option<Seq<char>>,
    pub id: Option<Seq<char>>,
    pub updated: Option<Seq<char>>,
    pub taxonomies: Seq<(Seq<char>, Seq<char>)>,
    pub categories: Seq<(Seq<char>, Option<Seq<char>>)>,
    pub omniclass: Option<Seq<char>>,
}

/// Categories as values: term and scheme.
pub open spec fn category_values(c: Seq<Category>) -> Seq<(Seq<char>, Option<Seq<char>>)> {
    c.map_values(|c: Category| (c.term@, opt_text(c.scheme)))
}

/// The values an atom holds.
pub open spec fn atom_value(a: PartAtom) -> AtomValue {
    AtomValue {
        title: opt_text(a.title),
        id: opt_text(a.id),
        updated: opt_text(a.updated),
        taxonomies: a.taxonomies@.map_values(|t: Taxonomy| (t.term@, t.label@)),
        categories: category_values(a.categories@),
        omniclass: opt_text(a.omniclass),
    }
}

/// A reader's state as values.
pub struct ReadState {
    pub atom: AtomValue,
    pub field: AtomField,
    pub taxonomy: Option<(Seq<char>, Seq<char>)>,
    pub category_term: Option<Seq<char>>,
    pub category_scheme: Option<Seq<char>>,
}

/// The state a reader is in.
pub open spec fn read_state(r: PartAtomReader) -> ReadState {
    ReadState {
        atom: atom_value(r.atom),
        field: r.field,
        taxonomy: taxonomy_text(r.taxonomy),
        category_term: opt_text(r.category_term),
        category_scheme: opt_text(r.category_scheme),
    }
}

/// The value of the first attribute keyed `key`, attributes as values.
pub open spec fn first_attribute(attributes: Seq<(Seq<char>, Seq<char>)>, key: Seq<char>) -> Option<Seq<char>>
    decreases attributes.len(),
{
    if attributes.len() == 0 {
        None
    } else if attributes[0].0 == key {
        Some(attributes[0].1)
    } else {
        first_attribute(attributes.drop_first(), key)
    }
}

/// Attributes as values.
pub open spec fn attribute_values(attributes: Seq<(String, String)>) -> Seq<(Seq<char>, Seq<char>)> {
    attributes.map_values(|a: (String, String)| (a.0@, a.1@))
}

proof fn lemma_first_value(attributes: Seq<(String, String)>, key: Seq<char>)
    ensures
        first_value(attributes, key) == first_attribute(attribute_values(attributes), key),
    decreases attributes.len(),
{
    if attributes.len() > 0 {
        assert(attribute_values(attributes).drop_first() =~= attribute_values(attributes.drop_first()));
        lemma_first_value(attributes.drop_first(), key);
    }
}

/// What an element opening does to a reader.
pub open spec fn start_step(s: ReadState, name: Seq<char>, attributes: Seq<(Seq<char>, Seq<char>)>) -> ReadState {
    let local = after_first_colon(name);
    ReadState {
        atom: if local == "omniclass"@ {
            AtomValue { omniclass: None, ..s.atom }
        } else {
            s.atom
        },
        field: if local == "title"@ {
            AtomField::Title
        } else if local == "id"@ {
            AtomField::Id
        } else if local == "updated"@ {
            AtomField::Updated
        } else if local == "term"@ {
            AtomField::TaxonomyTerm
        } else if local == "label"@ {
            AtomField::TaxonomyLabel
        } else if local == "omniclass"@ {
            AtomField::Omniclass
        } else {
            s.field
        },
        taxonomy: if local == "taxonomy"@ {
            Some((Seq::empty(), Seq::empty()))
        } else {
            s.taxonomy
        },
        category_term: if local == "category"@ {
            None
        } else {
            s.category_term
        },
        category_scheme: if local == "category"@ {
            first_attribute(attributes, "scheme"@)
        } else {
            s.category_scheme
        },
    }
}

/// What text does to a reader.
pub open spec fn text_step(s: ReadState, text: Seq<char>) -> ReadState {
    let t = trim(text);
    if t.len() == 0 {
        s
    } else {
        ReadState {
            atom: AtomValue {
                title: if s.field == AtomField::Title { Some(t) } else { s.atom.title },
                id: if s.field == AtomField::Id { Some(t) } else { s.atom.id },
                updated: if s.field == AtomField::Updated { Some(t) } else { s.atom.updated },
                omniclass: if s.field == AtomField::Omniclass { Some(t) } else { s.atom.omniclass },
                ..s.atom
            },
            taxonomy: match s.taxonomy {
                Some(tx) => if s.field == AtomField::TaxonomyTerm {
                    Some((t, tx.1))
                } else if s.field == AtomField::TaxonomyLabel {
                    Some((tx.0, t))
                } else {
                    Some(tx)
                },
                None => None,
            },
            category_term: if s.field == AtomField::TaxonomyTerm && s.taxonomy is None {
                Some(t)
            } else {
                s.category_term
            },
            ..s
        }
    }
}

/// What an element closing does to a reader.
pub open spec fn end_step(s: ReadState, name: Seq<char>) -> ReadState {
    let local = after_last_colon(name);
    if local == "taxonomy"@ {
        ReadState {
            atom: AtomValue {
                taxonomies: match s.taxonomy {
                    Some(t) => s.atom.taxonomies.push(t),
                    None => s.atom.taxonomies,
                },
                ..s.atom
            },
            field: AtomField::Top,
            taxonomy: None,
            ..s
        }
    } else if local == "category"@ {
        ReadState {
            atom: match s.category_term {
                Some(term) => AtomValue {
                    categories: s.atom.categories.push((term, s.category_scheme)),
                    omniclass: if is_omniclass(term) && s.atom.omniclass is None {
                        Some(term)
                    } else {
                        s.atom.omniclass
                    },
                    ..s.atom
                },
                None => s.atom,
            },
            field: AtomField::Top,
            category_term: None,
            category_scheme: None,
            ..s
        }
    } else {
        ReadState { field: AtomField::Top, ..s }
    }
}

/// The state of a reader that has read nothing.
pub open spec fn fresh_state() -> ReadState {
    ReadState {
        atom: AtomValue {
            title: None,
            id: None,
            updated: None,
            taxonomies: Seq::empty(),
            categories: Seq::empty(),
            omniclass: None,
        },
        field: AtomField::Top,
        taxonomy: None,
        category_term: None,
        category_scheme: None,
    }
}

/// What an XML reader reports of a document: an element opening with its
/// attributes, text (unescaped, as the reader hands it on), an element
/// closing.
pub enum XmlEvent {
    Start(Seq<char>, Seq<(Seq<char>, Seq<char>)>),
    Text(Seq<char>),
    End(Seq<char>),
}

/// What one event does to a reader.
pub open spec fn event_step(s: ReadState, e: XmlEvent) -> ReadState {
    match e {
        XmlEvent::Start(name, attributes) => start_step(s, name, attributes),
        XmlEvent::Text(t) => text_step(s, t),
        XmlEvent::End(name) => end_step(s, name),
    }
}

/// The state a reader is in after `events`, from `s`.
pub open spec fn read_events(s: ReadState, events: Seq<XmlEvent>) -> ReadState
    decreases events.len(),
{
    if events.len() == 0 {
        s
    } else {
        read_events(event_step(s, events[0]), events.drop_first())
    }
}

proof fn lemma_read_concat(s: ReadState, a: Seq<XmlEvent>, b: Seq<XmlEvent>)
    ensures
        read_events(s, a + b) == read_events(read_events(s, a), b),
    decreases a.len(),
{
    if a.len() > 0 {
        assert((a + b).drop_first() =~= a.drop_first() + b);
        assert((a + b)[0] == a[0]);
        lemma_read_concat(event_step(s, a[0]), a.drop_first(), b);
    } else {
        assert(a + b =~= b);
    }
}

/// An element holding nothing but `text`.
pub open spec fn element_events(name: Seq<char>, text: Seq<char>) -> Seq<XmlEvent> {
    seq![XmlEvent::Start(name, Seq::empty()), XmlEvent::Text(text), XmlEvent::End(name)]
}

/// An optional element's events: none when the value is absent.
pub open spec fn optional_events(name: Seq<char>, value: Option<Seq<char>>) -> Seq<XmlEvent> {
    match value {
        Some(t) => element_events(name, t),
        None => Seq::empty(),
    }
}

/// The events of the taxonomy lines of [`taxonomy_lines`].
pub open spec fn taxonomy_events(t: Seq<(Seq<char>, Seq<char>)>) -> Seq<XmlEvent>
    decreases t.len(),
{
    if t.len() == 0 {
        Seq::empty()
    } else {
        taxonomy_events(t.drop_last()) + seq![XmlEvent::Start("A:taxonomy"@, Seq::empty())] + element_events(
            "term"@,
            t.last().0,
        ) + element_events("label"@, t.last().1) + seq![XmlEvent::End("A:taxonomy"@)]
    }
}

/// A category's `scheme` attribute, as the reader reports it: unescaped.
pub open spec fn scheme_attributes(scheme: Option<Seq<char>>) -> Seq<(Seq<char>, Seq<char>)> {
    match scheme {
        Some(x) => seq![("scheme"@, x)],
        None => Seq::empty(),
    }
}

/// The events of the category lines of [`category_lines`].
pub open spec fn category_events(c: Seq<(Seq<char>, Option<Seq<char>>)>) -> Seq<XmlEvent>
    decreases c.len(),
{
    if c.len() == 0 {
        Seq::empty()
    } else {
        category_events(c.drop_last()) + seq![XmlEvent::Start("category"@, scheme_attributes(c.last().1))]
            + element_events("term"@, c.last().0) + seq![XmlEvent::End("category"@)]
    }
}

/// The `A:omniclass` element's events: none when the categories already
/// give the atom's OmniClass code, else the element with the code as its
/// text, or empty when there is none.
pub open spec fn omniclass_events(a: AtomValue) -> Seq<XmlEvent> {
    if a.omniclass == first_omniclass(a.categories) {
        Seq::empty()
    } else {
        match a.omniclass {
            Some(x) => element_events("A:omniclass"@, x),
            None => seq![XmlEvent::Start("A:omniclass"@, Seq::empty()), XmlEvent::End("A:omniclass"@)],
        }
    }
}

/// The `entry` element's namespace attributes.
pub open spec fn entry_attributes() -> Seq<(Seq<char>, Seq<char>)> {
    seq![("xmlns"@, "http://www.w3.org/2005/Atom"@), ("xmlns:A"@, "urn:schemas-autodesk-com:partatom"@)]
}

/// The events an XML reader reports of [`atom_text`] of an atom with
/// values `a`, text between elements being white space only.
pub open spec fn document_events(a: AtomValue) -> Seq<XmlEvent> {
    seq![XmlEvent::Start("entry"@, entry_attributes())] + optional_events("title"@, a.title) + optional_events(
        "id"@,
        a.id,
    ) + optional_events("updated"@, a.updated) + taxonomy_events(a.taxonomies) + category_events(a.categories)
        + omniclass_events(a) + seq![XmlEvent::End("entry"@)]
}

/// The first OmniClass-shaped term among the categories.
pub open spec fn first_omniclass(c: Seq<(Seq<char>, Option<Seq<char>>)>) -> Option<Seq<char>>
    decreases c.len(),
{
    if c.len() == 0 {
        None
    } else if first_omniclass(c.drop_last()) is Some {
        first_omniclass(c.drop_last())
    } else if is_omniclass(c.last().0) {
        Some(c.last().0)
    } else {
        None
    }
}

/// Whether text reads back as itself: not empty, and no white space to
/// trim at either end.
pub open spec fn reads_back(t: Seq<char>) -> bool {
    t.len() > 0 && trim(t) == t
}

/// Whether an atom's values survive a write and a read: every text but the
/// schemes reads back (a scheme, written as an attribute, always does).
pub open spec fn round_trips(a: AtomValue) -> bool {
    &&& (a.title matches Some(t) ==> reads_back(t))
    &&& (a.id matches Some(t) ==> reads_back(t))
    &&& (a.updated matches Some(t) ==> reads_back(t))
    &&& forall|i: int| #![trigger a.taxonomies[i]] 0 <= i < a.taxonomies.len() ==> reads_back(a.taxonomies[i].0) && reads_back(a.taxonomies[i].1)
    &&& forall|i: int| #![trigger a.categories[i]] 0 <= i < a.categories.len() ==> reads_back(a.categories[i].0)
    &&& (a.omniclass matches Some(t) ==> reads_back(t))
}

proof fn lemma_no_colon(name: Seq<char>)
    requires
        forall|i: int| 0 <= i < name.len() ==> name[i] != ':',
    ensures
        after_first_colon(name) == name,
        after_last_colon(name) == name,
{
}

proof fn lemma_prefixed_name()
    ensures
        after_first_colon("A:taxonomy"@) == "taxonomy"@,
        after_last_colon("A:taxonomy"@) == "taxonomy"@,
        after_first_colon("A:omniclass"@) == "omniclass"@,
        after_last_colon("A:omniclass"@) == "omniclass"@,
{
    reveal_strlit("A:taxonomy");
    reveal_strlit("taxonomy");
    let n = "A:taxonomy"@;
    assert(n[1] == ':');
    let i = choose|i: int| 0 <= i < n.len() && n[i] == ':' && forall|j: int| 0 <= j < i ==> n[j] != ':';
    assert(i == 1) by {
        if i > 1 {
            assert(n[1] != ':');
        }
    }
    assert(n.skip(2) =~= "taxonomy"@);
    let l = choose|l: int| 0 <= l < n.len() && n[l] == ':' && forall|j: int| l < j < n.len() ==> n[j] != ':';
    assert(l == 1) by {
        if l != 1 {
            assert(n[l] == ':');
        }
    }
    reveal_strlit("A:omniclass");
    reveal_strlit("omniclass");
    let m = "A:omniclass"@;
    assert(m[1] == ':');
    let i = choose|i: int| 0 <= i < m.len() && m[i] == ':' && forall|j: int| 0 <= j < i ==> m[j] != ':';
    assert(i == 1) by {
        if i > 1 {
            assert(m[1] != ':');
        }
    }
    assert(m.skip(2) =~= "omniclass"@);
    let l = choose|l: int| 0 <= l < m.len() && m[l] == ':' && forall|j: int| l < j < m.len() ==> m[j] != ':';
    assert(l == 1) by {
        if l != 1 {
            assert(m[l] == ':');
        }
    }
}

/// The element names the events use, as locals, and how they differ.
proof fn lemma_names()
    ensures
        after_first_colon("title"@) == "title"@,
        after_first_colon("id"@) == "id"@,
        after_first_colon("updated"@) == "updated"@,
        after_first_colon("term"@) == "term"@,
        after_first_colon("label"@) == "label"@,
        after_first_colon("category"@) == "category"@,
        after_first_colon("entry"@) == "entry"@,
        after_last_colon("title"@) == "title"@,
        after_last_colon("id"@) == "id"@,
        after_last_colon("updated"@) == "updated"@,
        after_last_colon("term"@) == "term"@,
        after_last_colon("label"@) == "label"@,
        after_last_colon("category"@) == "category"@,
        after_last_colon("entry"@) == "entry"@,
        after_first_colon("A:taxonomy"@) == "taxonomy"@,
        after_last_colon("A:taxonomy"@) == "taxonomy"@,
        after_first_colon("A:omniclass"@) == "omniclass"@,
        after_last_colon("A:omniclass"@) == "omniclass"@,
        "omniclass"@ != "title"@ && "omniclass"@ != "id"@ && "omniclass"@ != "updated"@ && "omniclass"@ != "term"@,
        "omniclass"@ != "label"@ && "omniclass"@ != "taxonomy"@ && "omniclass"@ != "category"@ && "omniclass"@ != "entry"@,
        "title"@ != "id"@ && "title"@ != "updated"@ && "title"@ != "term"@ && "title"@ != "label"@,
        "title"@ != "taxonomy"@ && "title"@ != "category"@,
        "id"@ != "updated"@ && "id"@ != "term"@ && "id"@ != "label"@ && "id"@ != "taxonomy"@ && "id"@ != "category"@,
        "updated"@ != "term"@ && "updated"@ != "label"@ && "updated"@ != "taxonomy"@ && "updated"@ != "category"@,
        "term"@ != "label"@ && "term"@ != "taxonomy"@ && "term"@ != "category"@,
        "label"@ != "taxonomy"@ && "label"@ != "category"@ && "taxonomy"@ != "category"@,
        "entry"@ != "title"@ && "entry"@ != "id"@ && "entry"@ != "updated"@ && "entry"@ != "term"@,
        "entry"@ != "label"@ && "entry"@ != "taxonomy"@ && "entry"@ != "category"@,
        "scheme"@ != "xmlns"@,
{
    reveal_strlit("title");
    reveal_strlit("id");
    reveal_strlit("updated");
    reveal_strlit("term");
    reveal_strlit("label");
    reveal_strlit("category");
    reveal_strlit("entry");
    reveal_strlit("taxonomy");
    reveal_strlit("scheme");
    reveal_strlit("xmlns");
    reveal_strlit("omniclass");
    lemma_no_colon("title"@);
    lemma_no_colon("id"@);
    lemma_no_colon("updated"@);
    lemma_no_colon("term"@);
    lemma_no_colon("label"@);
    lemma_no_colon("category"@);
    lemma_no_colon("entry"@);
    lemma_prefixed_name();
    assert("title"@[0] != "id"@[0] && "title"@[0] != "updated"@[0] && "title"@.len() != "term"@.len());
    assert("title"@[0] != "label"@[0] && "title"@.len() != "taxonomy"@.len() && "title"@[0] != "category"@[0]);
    assert("id"@.len() != "updated"@.len() && "id"@.len() != "term"@.len() && "id"@.len() != "label"@.len());
    assert("id"@.len() != "taxonomy"@.len() && "id"@.len() != "category"@.len());
    assert("updated"@[0] != "term"@[0] && "updated"@[0] != "label"@[0] && "updated"@[0] != "taxonomy"@[0]);
    assert("updated"@[0] != "category"@[0]);
    assert("term"@.len() != "label"@.len() && "term"@.len() != "taxonomy"@.len() && "term"@.len() != "category"@.len());
    assert("label"@.len() != "taxonomy"@.len() && "label"@.len() != "category"@.len());
    assert("taxonomy"@[0] != "category"@[0]);
    assert("entry"@.len() != "id"@.len() && "entry"@.len() != "updated"@.len() && "entry"@.len() != "term"@.len());
    assert("entry"@.len() != "taxonomy"@.len() && "entry"@.len() != "category"@.len());
    assert("entry"@[0] != "title"@[0] && "entry"@[0] != "label"@[0]);
    assert("scheme"@.len() != "xmlns"@.len());
    assert("omniclass"@.len() == 9 && "omniclass"@[0] != "category"@[0] && "omniclass"@[0] != "taxonomy"@[0]);
}

proof fn lemma_one(s: ReadState, a: XmlEvent)
    ensures
        read_events(s, seq![a]) == event_step(s, a),
{
    let e = seq![a];
    assert(e[0] == a);
    assert(e.drop_first() =~= Seq::<XmlEvent>::empty());
    assert(read_events(event_step(s, a), Seq::<XmlEvent>::empty()) == event_step(s, a));
    assert(read_events(s, e) == read_events(event_step(s, e[0]), e.drop_first()));
}

proof fn lemma_three(s: ReadState, a: XmlEvent, b: XmlEvent, c: XmlEvent)
    ensures
        read_events(s, seq![a, b, c]) == event_step(event_step(event_step(s, a), b), c),
{
    let e = seq![a, b, c];
    assert(e[0] == a);
    assert(e.drop_first() =~= seq![b, c]);
    let e2 = seq![b, c];
    assert(e2[0] == b);
    assert(e2.drop_first() =~= seq![c]);
    assert(read_events(s, e) == read_events(event_step(s, a), e2));
    assert(read_events(event_step(s, a), e2) == read_events(event_step(event_step(s, a), b), seq![c]));
    lemma_one(event_step(event_step(s, a), b), c);
}

/// Whether a reader sits between elements: text goes nowhere and no
/// taxonomy is open.
pub open spec fn between_elements(s: ReadState) -> bool {
    s.field == AtomField::Top && s.taxonomy is None
}

proof fn lemma_title(s: ReadState, t: Seq<char>)
    requires
        between_elements(s),
        reads_back(t),
    ensures
        (read_events(s, element_events("title"@, t)) == ReadState { atom: AtomValue { title: Some(t), ..s.atom }, ..s }),
{
    lemma_names();
    lemma_three(s, XmlEvent::Start("title"@, Seq::empty()), XmlEvent::Text(t), XmlEvent::End("title"@));
}

proof fn lemma_id(s: ReadState, t: Seq<char>)
    requires
        between_elements(s),
        reads_back(t),
    ensures
        (read_events(s, element_events("id"@, t)) == ReadState { atom: AtomValue { id: Some(t), ..s.atom }, ..s }),
{
    lemma_names();
    lemma_three(s, XmlEvent::Start("id"@, Seq::empty()), XmlEvent::Text(t), XmlEvent::End("id"@));
}

proof fn lemma_updated(s: ReadState, t: Seq<char>)
    requires
        between_elements(s),
        reads_back(t),
    ensures
        (read_events(s, element_events("updated"@, t)) == ReadState { atom: AtomValue { updated: Some(t), ..s.atom }, ..s }),
{
    lemma_names();
    lemma_three(s, XmlEvent::Start("updated"@, Seq::empty()), XmlEvent::Text(t), XmlEvent::End("updated"@));
}

proof fn lemma_taxonomies(s: ReadState, t: Seq<(Seq<char>, Seq<char>)>)
    requires
        between_elements(s),
        forall|i: int| #![trigger t[i]] 0 <= i < t.len() ==> reads_back(t[i].0) && reads_back(t[i].1),
    ensures
        (read_events(s, taxonomy_events(t)) == ReadState {
            atom: AtomValue { taxonomies: s.atom.taxonomies + t, ..s.atom },
            ..s
        }),
    decreases t.len(),
{
    lemma_names();
    if t.len() == 0 {
        assert(s.atom.taxonomies + t =~= s.atom.taxonomies);
        assert(taxonomy_events(t) =~= Seq::<XmlEvent>::empty());
    } else {
        let front = t.drop_last();
        let last = t.last();
        assert(reads_back(t[t.len() - 1].0) && reads_back(t[t.len() - 1].1));
        lemma_taxonomies(s, front);
        let m = ReadState { atom: AtomValue { taxonomies: s.atom.taxonomies + front, ..s.atom }, ..s };
        let open = seq![XmlEvent::Start("A:taxonomy"@, Seq::empty())];
        let close = seq![XmlEvent::End("A:taxonomy"@)];
        let term = element_events("term"@, last.0);
        let label = element_events("label"@, last.1);
        lemma_read_concat(s, taxonomy_events(front), open);
        lemma_read_concat(s, taxonomy_events(front) + open, term);
        lemma_read_concat(s, taxonomy_events(front) + open + term, label);
        lemma_read_concat(s, taxonomy_events(front) + open + term + label, close);
        lemma_one(m, XmlEvent::Start("A:taxonomy"@, Seq::empty()));
        let m1 = event_step(m, XmlEvent::Start("A:taxonomy"@, Seq::empty()));
        assert(m1 == ReadState { taxonomy: Some((Seq::<char>::empty(), Seq::<char>::empty())), ..m });
        lemma_three(m1, XmlEvent::Start("term"@, Seq::empty()), XmlEvent::Text(last.0), XmlEvent::End("term"@));
        let m2 = ReadState { taxonomy: Some((last.0, Seq::<char>::empty())), ..m };
        assert(read_events(m1, term) == m2);
        lemma_three(m2, XmlEvent::Start("label"@, Seq::empty()), XmlEvent::Text(last.1), XmlEvent::End("label"@));
        let m3 = ReadState { taxonomy: Some((last.0, last.1)), ..m };
        assert(read_events(m2, label) == m3);
        lemma_one(m3, XmlEvent::End("A:taxonomy"@));
        assert(s.atom.taxonomies + front.push(last) =~= (s.atom.taxonomies + front).push(last));
        assert(front.push(last) =~= t);
        assert(taxonomy_events(t) == taxonomy_events(front) + open + term + label + close);
    }
}

proof fn lemma_omniclass_push(c: Seq<(Seq<char>, Option<Seq<char>>)>, x: (Seq<char>, Option<Seq<char>>))
    ensures
        first_omniclass(c.push(x)) == (if first_omniclass(c) is Some {
            first_omniclass(c)
        } else if is_omniclass(x.0) {
            Some(x.0)
        } else {
            None
        }),
{
    assert(c.push(x).drop_last() =~= c);
}

proof fn lemma_categories(s: ReadState, c: Seq<(Seq<char>, Option<Seq<char>>)>)
    requires
        between_elements(s),
        (s.category_term is None),
        (s.category_scheme is None),
        s.atom.omniclass == first_omniclass(s.atom.categories),
        forall|i: int| #![trigger c[i]] 0 <= i < c.len() ==> reads_back(c[i].0),
    ensures
        (read_events(s, category_events(c)) == ReadState {
            atom: AtomValue {
                categories: s.atom.categories + c,
                omniclass: first_omniclass(s.atom.categories + c),
                ..s.atom
            },
            ..s
        }),
    decreases c.len(),
{
    lemma_names();
    if c.len() == 0 {
        assert(s.atom.categories + c =~= s.atom.categories);
        assert(category_events(c) =~= Seq::<XmlEvent>::empty());
    } else {
        let front = c.drop_last();
        let last = c.last();
        assert(reads_back(c[c.len() - 1].0));
        lemma_categories(s, front);
        let m = ReadState {
            atom: AtomValue {
                categories: s.atom.categories + front,
                omniclass: first_omniclass(s.atom.categories + front),
                ..s.atom
            },
            ..s
        };
        let attrs = scheme_attributes(last.1);
        let open = seq![XmlEvent::Start("category"@, attrs)];
        let close = seq![XmlEvent::End("category"@)];
        let term = element_events("term"@, last.0);
        lemma_read_concat(s, category_events(front), open);
        lemma_read_concat(s, category_events(front) + open, term);
        lemma_read_concat(s, category_events(front) + open + term, close);
        lemma_one(m, XmlEvent::Start("category"@, attrs));
        assert(first_attribute(attrs, "scheme"@) == last.1) by {
            match last.1 {
                Some(x) => {
                    assert(c[c.len() - 1].1 == Some(x));
                    assert(attrs[0].0 == "scheme"@);
                },
                None => {},
            }
        }
        let m1 = ReadState { category_term: None, category_scheme: last.1, ..m };
        assert(event_step(m, XmlEvent::Start("category"@, attrs)) == m1);
        lemma_three(m1, XmlEvent::Start("term"@, Seq::empty()), XmlEvent::Text(last.0), XmlEvent::End("term"@));
        let m2 = ReadState { category_term: Some(last.0), category_scheme: last.1, ..m };
        assert(read_events(m1, term) == m2);
        lemma_one(m2, XmlEvent::End("category"@));
        lemma_omniclass_push(s.atom.categories + front, last);
        assert((s.atom.categories + front).push(last) =~= s.atom.categories + c);
        assert(category_events(c) == category_events(front) + open + term + close);
    }
}

/// Reading what [`PartAtom::encode`] writes gives the atom back: from a
/// reader that has read nothing, the events of an atom's document leave
/// its title, id, update time, every taxonomy, every category with its
/// scheme, and its OmniClass code. This holds of every atom whose texts
/// (all but the schemes) are non-empty with no white space at either end.
pub proof fn reading_an_encoded_atom_gives_it_back(a: AtomValue)
    requires
        round_trips(a),
    ensures
        read_events(fresh_state(), document_events(a)).atom == a,
{
    lemma_names();
    let s0 = fresh_state();
    let head = seq![XmlEvent::Start("entry"@, entry_attributes())];
    let t = optional_events("title"@, a.title);
    let i = optional_events("id"@, a.id);
    let u = optional_events("updated"@, a.updated);
    let tx = taxonomy_events(a.taxonomies);
    let ct = category_events(a.categories);
    let tail = seq![XmlEvent::End("entry"@)];
    lemma_one(s0, XmlEvent::Start("entry"@, entry_attributes()));
    let s1 = read_events(s0, head);
    assert(s1 == s0);
    lemma_read_concat(s0, head, t);
    let s2 = read_events(s1, t);
    match a.title {
        Some(x) => lemma_title(s1, x),
        None => {},
    }
    assert(s2 == ReadState { atom: AtomValue { title: a.title, ..s1.atom }, ..s1 });
    lemma_read_concat(s0, head + t, i);
    let s3 = read_events(s2, i);
    match a.id {
        Some(x) => lemma_id(s2, x),
        None => {},
    }
    assert(s3 == ReadState { atom: AtomValue { id: a.id, ..s2.atom }, ..s2 });
    lemma_read_concat(s0, head + t + i, u);
    let s4 = read_events(s3, u);
    match a.updated {
        Some(x) => lemma_updated(s3, x),
        None => {},
    }
    assert(s4 == ReadState { atom: AtomValue { updated: a.updated, ..s3.atom }, ..s3 });
    lemma_read_concat(s0, head + t + i + u, tx);
    lemma_taxonomies(s4, a.taxonomies);
    let s5 = read_events(s4, tx);
    assert(s4.atom.taxonomies + a.taxonomies =~= a.taxonomies);
    lemma_read_concat(s0, head + t + i + u + tx, ct);
    lemma_categories(s5, a.categories);
    let s6 = read_events(s5, ct);
    assert(s5.atom.categories + a.categories =~= a.categories);
    let oc = omniclass_events(a);
    lemma_read_concat(s0, head + t + i + u + tx + ct, oc);
    lemma_omniclass(s6, a);
    let s7 = read_events(s6, oc);
    lemma_read_concat(s0, head + t + i + u + tx + ct + oc, tail);
    lemma_one(s7, XmlEvent::End("entry"@));
    assert(document_events(a) == head + t + i + u + tx + ct + oc + tail);
}

proof fn lemma_omniclass(s: ReadState, a: AtomValue)
    requires
        between_elements(s),
        s.atom.omniclass == first_omniclass(a.categories),
        a.omniclass matches Some(t) ==> reads_back(t),
    ensures
        (read_events(s, omniclass_events(a)) == ReadState { atom: AtomValue { omniclass: a.omniclass, ..s.atom }, ..s }),
{
    lemma_names();
    let open = XmlEvent::Start("A:omniclass"@, Seq::empty());
    let close = XmlEvent::End("A:omniclass"@);
    if a.omniclass == first_omniclass(a.categories) {
        assert(read_events(s, Seq::<XmlEvent>::empty()) == s);
        assert(AtomValue { omniclass: a.omniclass, ..s.atom } == s.atom);
    } else {
        match a.omniclass {
            Some(x) => {
                lemma_three(s, open, XmlEvent::Text(x), close);
            },
            None => {
                lemma_read_concat(s, seq![open], seq![close]);
                lemma_one(s, open);
                lemma_one(event_step(s, open), close);
                assert(seq![open] + seq![close] =~= seq![open, close]);
            },
        }
    }
}


/// Reading the bytes [`PartAtom::encode`] writes gives the atom back,
/// wherever the XML reader reports, of the encoded document, the events
/// [`document_events`] spells out: the bytes are UTF-8, they decode to the
/// document's text, and [`PartAtom::from_bytes`] reads from them the atom's
/// title, id, update time, every taxonomy, every category with its scheme,
/// and its OmniClass code.
pub proof fn decoding_encoded_bytes_gives_the_atom_back(a: PartAtom)
    requires
        round_trips(atom_value(a)),
        xml_events(atom_text(a)) == Some(document_events(atom_value(a))),
    ensures
        valid_utf8(encode_utf8(atom_text(a))),
        decode_utf8(encode_utf8(atom_text(a))) == atom_text(a),
        decoded_atom(encode_utf8(atom_text(a))) == Some(atom_value(a)),
{
    broadcast use vstd::utf8::encode_utf8_valid_utf8, vstd::utf8::encode_utf8_decode_utf8;

    reading_an_encoded_atom_gives_it_back(atom_value(a));
}

/// What the XML reader reports on one call: an event the document reader
/// takes, an event it skips (a declaration, comment, empty element and the
/// like), the end of the input, or an error.
pub enum XmlReport {
    Event(XmlEvent),
    Skipped,
    Eof,
    Failed,
}

/// What `quick_xml::Reader::read_event_into` reports, call after call, of
/// the document `text` read with text trimmed at both ends, up to and
/// including the first end of input or error (the reader reaches one of
/// them on every finite input): element starts with the name and each
/// well-formed attribute's key and value, the value unescaped, empty where
/// unescaping fails; text, unescaped, empty where unescaping fails;
/// element ends with the name.
pub uninterp spec fn xml_reports(text: Seq<char>) -> Seq<XmlReport>;

/// The events among `reports`, in order.
pub open spec fn reported_events(reports: Seq<XmlReport>) -> Seq<XmlEvent>
    decreases reports.len(),
{
    if reports.len() == 0 {
        Seq::empty()
    } else {
        let front = reported_events(reports.drop_last());
        match reports.last() {
            XmlReport::Event(e) => front.push(e),
            _ => front,
        }
    }
}

/// The events the XML reader reports of `text`, when it reads it to the
/// end without an error.
pub open spec fn xml_events(text: Seq<char>) -> Option<Seq<XmlEvent>> {
    let reports = xml_reports(text);
    if reports.len() > 0 && reports.last() is Eof {
        Some(reported_events(reports))
    } else {
        None
    }
}

/// What a PartAtom document's bytes hold: nothing when they are not UTF-8
/// or the XML reader reports an error; otherwise what a reader that has
/// read nothing holds after the reported events.
pub open spec fn decoded_atom(data: Seq<u8>) -> Option<AtomValue> {
    if valid_utf8(data) {
        match xml_events(decode_utf8(data)) {
            Some(events) => Some(read_events(fresh_state(), events).atom),
            None => None,
        }
    } else {
        None
    }
}

/// Why a PartAtom document could not be read.
#[derive(Debug, Clone, PartialEq, Eq)]
pub enum PartAtomError {
    /// The bytes are not UTF-8; the decoder's message.
    InvalidUtf8(String),
    /// The XML reader reported an error; its message.
    Malformed(String),
}

/// `quick_xml::Reader`, held opaque: what it reports is stated through
/// [`xml_reports`].
#[verifier::external_type_specification]
#[verifier::external_body]
#[verifier::reject_recursive_types(R)]
pub struct ExXmlReader<R>(quick_xml::Reader<R>);

/// An XML reader over a document, with the document's text and the number
/// of reports taken so far.
struct XmlCursor<'a> {
    reader: quick_xml::Reader<&'a [u8]>,
    buf: Vec<u8>,
    text: Ghost<Seq<char>>,
    taken: Ghost<nat>,
}

/// One report of the XML reader, its strings owned.
enum XmlStep {
    Start(String, Vec<(String, String)>),
    Text(String),
    End(String),
    Other,
    Eof,
    Failed(String),
}

/// The report a step stands for.
spec fn step_report(s: XmlStep) -> XmlReport {
    match s {
        XmlStep::Start(name, attributes) => XmlReport::Event(
            XmlEvent::Start(name@, attribute_values(attributes@)),
        ),
        XmlStep::Text(t) => XmlReport::Event(XmlEvent::Text(t@)),
        XmlStep::End(name) => XmlReport::Event(XmlEvent::End(name@)),
        XmlStep::Other => XmlReport::Skipped,
        XmlStep::Eof => XmlReport::Eof,
        XmlStep::Failed(_) => XmlReport::Failed,
    }
}

/// `std::str::from_utf8`: the bytes as text when they are UTF-8, else the
/// error's message (which this contract leaves unsaid).
#[verifier::external_body]
fn utf8_text(data: &[u8]) -> (r: Result<&str, String>)
    ensures
        r is Ok <==> valid_utf8(data@),
        r matches Ok(s) ==> s.spec_bytes() == data@,
{
    std::str::from_utf8(data).map_err(|e| e.to_string())
}

/// `quick_xml::Reader::from_str` with text trimmed at both ends: a reader at
/// the start of `text`, which reports at least one thing before it ends.
#[verifier::external_body]
fn xml_cursor<'a>(text: &'a str) -> (c: XmlCursor<'a>)
    ensures
        c.text@ == text@,
        c.taken@ == 0,
        xml_reports(c.text@).len() > 0,
{
    let mut reader = quick_xml::Reader::from_str(text);
    reader.config_mut().trim_text(true);
    XmlCursor { reader, buf: Vec::new(), text: Ghost(text@), taken: Ghost(0) }
}

/// `quick_xml::Reader::read_event_into`: the next report of the document,
/// names as text (invalid UTF-8 replaced), attribute values and text
/// unescaped. The end of input and an error are the last report; the
/// error's message is left unsaid.
#[verifier::external_body]
fn next_xml_event(c: &mut XmlCursor) -> (r: XmlStep)
    requires
        old(c).taken@ < xml_reports(old(c).text@).len(),
    ensures
        final(c).text == old(c).text,
        final(c).taken@ == old(c).taken@ + 1,
        step_report(r) == xml_reports(old(c).text@)[old(c).taken@ as int],
        (r is Eof || r is Failed) <==> final(c).taken@ == xml_reports(old(c).text@).len(),
{
    let text = |b| String::from_utf8_lossy(b).into_owned();
    match c.reader.read_event_into(&mut c.buf) {
        Ok(Event::Start(e)) => XmlStep::Start(
            text(e.name().0),
            e.attributes().flatten().map(|a| (text(a.key.0), a.unescape_value().unwrap_or_default().into_owned())).collect(),
        ),
        Ok(Event::Text(e)) => XmlStep::Text(e.unescape().unwrap_or_default().into_owned()),
        Ok(Event::End(e)) => XmlStep::End(text(e.name().0)),
        Ok(Event::Eof) => XmlStep::Eof,
        Ok(_) => XmlStep::Other,
        Err(e) => XmlStep::Failed(e.to_string()),
    }
}

proof fn lemma_report_step(s: ReadState, reports: Seq<XmlReport>, k: int)
    requires
        0 <= k < reports.len(),
    ensures
        reported_events(reports.take(k + 1)) == (match reports[k] {
            XmlReport::Event(e) => reported_events(reports.take(k)).push(e),
            _ => reported_events(reports.take(k)),
        }),
        read_events(s, reported_events(reports.take(k + 1))) == (match reports[k] {
            XmlReport::Event(e) => event_step(read_events(s, reported_events(reports.take(k))), e),
            _ => read_events(s, reported_events(reports.take(k))),
        }),
{
    assert(reports.take(k + 1).drop_last() =~= reports.take(k));
    assert(reports.take(k + 1).last() == reports[k]);
    match reports[k] {
        XmlReport::Event(e) => {
            lemma_read_concat(s, reported_events(reports.take(k)), seq![e]);
            lemma_one(read_events(s, reported_events(reports.take(k))), e);
            assert(reported_events(reports.take(k)).push(e) =~= reported_events(reports.take(k)) + seq![e]);
        },
        _ => {},
    }
}

impl PartAtom {
    /// Read a PartAtom document from its bytes: they must be UTF-8, and the
    /// XML reader walks the text, each element start, text and end going
    /// to a [`PartAtomReader`]. The text is kept as the raw XML.
    pub fn from_bytes(data: &[u8]) -> (r: Result<PartAtom, PartAtomError>)
        ensures
            r is Ok <==> decoded_atom(data@) is Some,
            r matches Ok(a) ==> atom_value(a) == decoded_atom(data@)->0 && a.raw_xml@ == decode_utf8(data@),
            r matches Err(e) ==> (e is InvalidUtf8 <==> !valid_utf8(data@)),
    {
        broadcast use vstd::utf8::encode_utf8_decode_utf8;

        let text = match utf8_text(data) {
            Ok(t) => t,
            Err(why) => return Err(PartAtomError::InvalidUtf8(why)),
        };
        proof {
            assert(decode_utf8(data@) == text@);
        }
        let mut reader = PartAtomReader::new(text.to_owned());
        let mut cursor = xml_cursor(text);
        let ghost reports = xml_reports(text@);
        loop
            invariant
                decode_utf8(data@) == text@,
                valid_utf8(data@),
                cursor.text@ == text@,
                reports == xml_reports(text@),
                cursor.taken@ < reports.len(),
                read_state(reader) == read_events(fresh_state(), reported_events(reports.take(cursor.taken@ as int))),
                reader.atom.raw_xml@ == text@,
            decreases reports.len() - cursor.taken@,
        {
            let ghost k = cursor.taken@ as int;
            cursor.buf.clear();
            let step = next_xml_event(&mut cursor);
            proof {
                lemma_report_step(fresh_state(), reports, k);
            }
            match step {
                XmlStep::Start(name, attributes) => reader.start(name.as_str(), &attributes),
                XmlStep::Text(t) => reader.text(t.as_str()),
                XmlStep::End(name) => reader.end(name.as_str()),
                XmlStep::Other => {},
                XmlStep::Eof => {
                    proof {
                        assert(reports.take(k + 1) =~= reports);
                    }
                    return Ok(reader.finish());
                },
                XmlStep::Failed(why) => {
                    assert(reports.last() is Failed);
                    return Err(PartAtomError::Malformed(why));
                },
            }
        }
    }
}

} // verus!
