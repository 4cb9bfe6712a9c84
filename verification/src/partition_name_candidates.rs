//! Display-name candidates among the UTF-16LE strings of a model's
//! partitions: string heuristics only, with no ElementId binding. Storey
//! labels are those that also pass [`is_building_storey_name`].

use vstd::prelude::*;
use crate::text::{
    chars_of, contains, contains_str, ends_with, ends_with_str, equals_str, is_white_space,
    lower, lower_chars, starts_with, starts_with_str, string_of, trim, trim_chars, utf8_len,
    utf8_length, white_space,
};

verus! {

/// Coarse buckets for partition display-name candidates.
#[derive(Debug, Clone, Copy, PartialEq, Eq, Structural, PartialOrd, Ord, Hash)]
pub enum NameBucket {
    MaterialLike,
    LevelLike,
    SpaceLike,
}

/// Position of a bucket in the order of its declaration.
pub open spec fn bucket_rank(b: NameBucket) -> int {
    match b {
        NameBucket::MaterialLike => 0,
        NameBucket::LevelLike => 1,
        NameBucket::SpaceLike => 2,
    }
}

fn rank_of(b: NameBucket) -> (r: u8)
    ensures
        r == bucket_rank(b),
{
    match b {
        NameBucket::MaterialLike => 0,
        NameBucket::LevelLike => 1,
        NameBucket::SpaceLike => 2,
    }
}

/// Whether `c` has the Unicode `Alphabetic` property.
pub uninterp spec fn unicode_alphabetic(c: char) -> bool;

/// `char::is_alphabetic`: whether `c` carries the Unicode `Alphabetic`
/// property. The property's table is not restated here; the result is the
/// name `unicode_alphabetic` applied to `c`.
#[verifier::external_body]
fn is_alphabetic(c: char) -> (r: bool)
    ensures
        r == unicode_alphabetic(c),
{
    c.is_alphabetic()
}

/// Whether some character of `s` is alphabetic.
pub open spec fn has_alphabetic(s: Seq<char>) -> bool {
    exists|i: int| 0 <= i < s.len() && unicode_alphabetic(#[trigger] s[i])
}

/// `char::is_ascii_hexdigit`.
pub open spec fn is_ascii_hex(c: char) -> bool {
    ('0' <= c <= '9') || ('a' <= c <= 'f') || ('A' <= c <= 'F')
}

/// `char::is_ascii_digit`.
pub open spec fn is_ascii_digit(c: char) -> bool {
    '0' <= c <= '9'
}

/// A digit or one of the separators that alone make no name.
pub open spec fn is_plain(c: char) -> bool {
    is_ascii_digit(c) || c == ' ' || c == '.' || c == '-' || c == '_' || c == '/' || c == '\\'
        || c == '\'' || c == '"'
}

/// The number of ASCII hex digits in `s`.
pub open spec fn hex_count(s: Seq<char>) -> int
    decreases s.len(),
{
    if s.len() == 0 {
        0
    } else {
        hex_count(s.drop_last()) + if is_ascii_hex(s.last()) {
            1int
        } else {
            0int
        }
    }
}

/// Whether every character of `s` is plain.
pub open spec fn all_plain(s: Seq<char>) -> bool {
    forall|i: int| 0 <= i < s.len() ==> is_plain(#[trigger] s[i])
}

/// Whether `s` reads as a display name, given whether its trimmed text holds
/// an alphabetic character.
pub open spec fn spec_display_name_given(s: Seq<char>, has_letter: bool) -> bool {
    let t = trim(s);
    &&& 2 <= utf8_len(t) <= 80
    &&& !starts_with(t, "autodesk."@)
    &&& !starts_with(t, "http://"@)
    &&& !starts_with(t, "https://"@)
    &&& !contains(t, "://"@)
    &&& !starts_with(t, "Uniformat"@)
    &&& !starts_with(t, "OmniClass"@)
    &&& hex_count(t) < 32
    &&& has_letter
    &&& !all_plain(t)
}

/// Whether `s` reads as a human-facing display name.
pub open spec fn spec_is_display_name(s: Seq<char>) -> bool {
    spec_display_name_given(s, has_alphabetic(trim(s)))
}

fn count_hex(t: &Vec<char>) -> (n: usize)
    ensures
        n == hex_count(t@),
{
    let mut n: usize = 0;
    let mut i: usize = 0;
    while i < t.len()
        invariant
            i <= t@.len(),
            n <= i,
            n == hex_count(t@.subrange(0, i as int)),
        decreases t@.len() - i,
    {
        let c = t[i];
        assert(t@.subrange(0, i + 1).drop_last() =~= t@.subrange(0, i as int));
        if ('0' <= c && c <= '9') || ('a' <= c && c <= 'f') || ('A' <= c && c <= 'F') {
            n += 1;
        }
        i += 1;
    }
    assert(t@.subrange(0, t@.len() as int) =~= t@);
    n
}

fn every_plain(t: &Vec<char>) -> (r: bool)
    ensures
        r == all_plain(t@),
{
    let mut i: usize = 0;
    while i < t.len()
        invariant
            i <= t@.len(),
            forall|j: int| 0 <= j < i ==> is_plain(#[trigger] t@[j]),
        decreases t@.len() - i,
    {
        let c = t[i];
        let plain = ('0' <= c && c <= '9') || c == ' ' || c == '.' || c == '-' || c == '_' || c
            == '/' || c == '\\' || c == '\'' || c == '"';
        if !plain {
            return false;
        }
        i += 1;
    }
    true
}

fn any_alphabetic(t: &Vec<char>) -> (r: bool)
    ensures
        r == has_alphabetic(t@),
{
    let mut i: usize = 0;
    while i < t.len()
        invariant
            i <= t@.len(),
            forall|j: int| 0 <= j < i ==> !unicode_alphabetic(#[trigger] t@[j]),
        decreases t@.len() - i,
    {
        if is_alphabetic(t[i]) {
            return true;
        }
        i += 1;
    }
    false
}

fn display_name_chars(t: &Vec<char>, has_letter: bool) -> (r: bool)
    ensures
        r == {
            &&& 2 <= utf8_len(t@) <= 80
            &&& !starts_with(t@, "autodesk."@)
            &&& !starts_with(t@, "http://"@)
            &&& !starts_with(t@, "https://"@)
            &&& !contains(t@, "://"@)
            &&& !starts_with(t@, "Uniformat"@)
            &&& !starts_with(t@, "OmniClass"@)
            &&& hex_count(t@) < 32
            &&& has_letter
            &&& !all_plain(t@)
        },
{
    let len = utf8_length(t);
    if len < 2 || len > 80 {
        return false;
    }
    if starts_with_str(t, "autodesk.") || starts_with_str(t, "http://") || starts_with_str(
        t,
        "https://",
    ) || contains_str(t, "://") || starts_with_str(t, "Uniformat") || starts_with_str(
        t,
        "OmniClass",
    ) {
        return false;
    }
    if count_hex(t) >= 32 {
        return false;
    }
    if !has_letter {
        return false;
    }
    if every_plain(t) {
        return false;
    }
    true
}

/// Whether `s` reads as a display name, where `has_letter` says whether its
/// trimmed text holds an alphabetic character.
pub fn is_display_name_given(s: &str, has_letter: bool) -> (r: bool)
    ensures
        r == spec_display_name_given(s@, has_letter),
{
    let t = trim_chars(&chars_of(s));
    display_name_chars(&t, has_letter)
}

/// True when `s` looks like a human-facing display name rather than a Forge
/// URI, Uniformat/OmniClass code, or asset path.
pub fn is_display_name(s: &str) -> (r: bool)
    ensures
        r == spec_is_display_name(s@),
{
    let t = trim_chars(&chars_of(s));
    let has_letter = any_alphabetic(&t);
    display_name_chars(&t, has_letter)
}

/// Whether the lower-cased text names a material.
pub open spec fn names_material(l: Seq<char>) -> bool {
    contains(l, "concrete"@) || contains(l, "gypsum"@) || contains(l, "glass"@) || contains(
        l,
        "steel"@,
    ) || contains(l, "aluminum"@) || contains(l, "aluminium"@) || contains(l, "brick"@)
        || contains(l, "insulation"@) || contains(l, "hardwood"@) || contains(l, "masonry"@) || (
    contains(l, "wood"@) && !contains(l, "hardwoodschema"@))
}

/// Whether the lower-cased text is a material asset path.
pub open spec fn names_material_asset(l: Seq<char>) -> bool {
    contains(l, "mats/"@) || contains(l, "mats\\"@) || ends_with(l, ".xml"@)
}

/// Whether the lower-cased text names a level.
pub open spec fn names_level(l: Seq<char>) -> bool {
    starts_with(l, "level "@) || l == "level 1"@ || l == "ground floor"@ || l == "roof"@
        || contains(l, "first floor"@) || contains(l, "second floor"@)
}

/// Whether the lower-cased text names a space.
pub open spec fn names_space(l: Seq<char>) -> bool {
    contains(l, "conference"@) || contains(l, "corridor"@) || contains(l, "lobby"@) || contains(
        l,
        "office"@,
    ) || contains(l, "classroom"@) || starts_with(l, "space "@)
}

/// The bucket of `s`, given whether its trimmed text holds an alphabetic
/// character.
pub open spec fn spec_classify_given(s: Seq<char>, has_letter: bool) -> Option<NameBucket> {
    let l = lower(s);
    if !spec_display_name_given(s, has_letter) {
        None
    } else if names_material(l) {
        if names_material_asset(l) {
            None
        } else {
            Some(NameBucket::MaterialLike)
        }
    } else if names_level(l) {
        Some(NameBucket::LevelLike)
    } else if names_space(l) && utf8_len(s) <= 48 {
        Some(NameBucket::SpaceLike)
    } else {
        None
    }
}

/// The bucket of `s`.
pub open spec fn spec_classify_name(s: Seq<char>) -> Option<NameBucket> {
    spec_classify_given(s, has_alphabetic(trim(s)))
}

fn classify_chars(s: &Vec<char>, display: bool) -> (r: Option<NameBucket>)
    ensures
        r == (if !display {
            None
        } else if names_material(lower(s@)) {
            if names_material_asset(lower(s@)) {
                None
            } else {
                Some(NameBucket::MaterialLike)
            }
        } else if names_level(lower(s@)) {
            Some(NameBucket::LevelLike)
        } else if names_space(lower(s@)) && utf8_len(s@) <= 48 {
            Some(NameBucket::SpaceLike)
        } else {
            None
        }),
{
    if !display {
        return None;
    }
    let l = lower_chars(s);
    let material = contains_str(&l, "concrete") || contains_str(&l, "gypsum") || contains_str(
        &l,
        "glass",
    ) || contains_str(&l, "steel") || contains_str(&l, "aluminum") || contains_str(
        &l,
        "aluminium",
    ) || contains_str(&l, "brick") || contains_str(&l, "insulation") || contains_str(
        &l,
        "hardwood",
    ) || contains_str(&l, "masonry") || (contains_str(&l, "wood") && !contains_str(
        &l,
        "hardwoodschema",
    ));
    if material {
        if contains_str(&l, "mats/") || contains_str(&l, "mats\\") || ends_with_str(&l, ".xml") {
            return None;
        }
        return Some(NameBucket::MaterialLike);
    }
    if starts_with_str(&l, "level ") || equals_str(&l, "level 1") || equals_str(&l, "ground floor")
        || equals_str(&l, "roof") || contains_str(&l, "first floor") || contains_str(
        &l,
        "second floor",
    ) {
        return Some(NameBucket::LevelLike);
    }
    let space = contains_str(&l, "conference") || contains_str(&l, "corridor") || contains_str(
        &l,
        "lobby",
    ) || contains_str(&l, "office") || contains_str(&l, "classroom") || starts_with_str(
        &l,
        "space ",
    );
    if space && utf8_length(s) <= 48 {
        return Some(NameBucket::SpaceLike);
    }
    None
}

/// The bucket of `s`, where `has_letter` says whether its trimmed text holds
/// an alphabetic character; `None` when `s` is no usable display name.
pub fn classify_name_given(s: &str, has_letter: bool) -> (r: Option<NameBucket>)
    ensures
        r == spec_classify_given(s@, has_letter),
{
    let display = is_display_name_given(s, has_letter);
    classify_chars(&chars_of(s), display)
}

/// Classify a single string into a name bucket, or `None` when it is not a
/// usable display-name candidate.
pub fn classify_name(s: &str) -> (r: Option<NameBucket>)
    ensures
        r == spec_classify_name(s@),
{
    let display = is_display_name(s);
    classify_chars(&chars_of(s), display)
}

/// The storey words that alone make a storey name.
pub open spec fn is_storey_word(l: Seq<char>) -> bool {
    l == "ground floor"@ || l == "groundfloor"@ || l == "roof"@ || l == "mezzanine"@ || l
        == "basement"@ || l == "podium"@ || l == "first floor"@ || l == "second floor"@ || l
        == "third floor"@
}

/// Words that mark view or family noise rather than a storey.
pub open spec fn names_noise(l: Seq<char>) -> bool {
    contains(l, "head"@) || contains(l, "layout"@) || contains(l, "upgrade"@) || contains(
        l,
        "view"@,
    ) || contains(l, "plan"@)
}

/// Whether every character of `s` is an ASCII digit or white space.
pub open spec fn digits_or_space(s: Seq<char>) -> bool {
    forall|i: int| 0 <= i < s.len() ==> is_ascii_digit(#[trigger] s[i]) || is_white_space(s[i])
}

/// Whether `s` can label a building storey: a storey word, or `Level`
/// followed by digits only, compared without case and surrounding space.
pub open spec fn spec_is_building_storey_name(s: Seq<char>) -> bool {
    let l = lower(trim(s));
    if l.len() == 0 || names_noise(l) {
        false
    } else if is_storey_word(l) {
        true
    } else if starts_with(l, "level "@) {
        let rest = l.skip("level "@.len() as int);
        rest.len() > 0 && digits_or_space(rest)
    } else {
        false
    }
}

/// Where `p` cannot start at position `k` of `s`: too little of `s` is
/// left, or one of the first two characters of `p` differs there.
pub open spec fn cannot_start_at(s: Seq<char>, p: Seq<char>, k: int) -> bool {
    k + p.len() > s.len() || s[k] != p[0] || s[k + 1] != p[1]
}

/// Whether `p` can start nowhere in the first thirteen positions of `s`.
pub open spec fn starts_nowhere(s: Seq<char>, p: Seq<char>) -> bool {
    cannot_start_at(s, p, 0) && cannot_start_at(s, p, 1) && cannot_start_at(s, p, 2) && cannot_start_at(s, p, 3) && cannot_start_at(s, p, 4) && cannot_start_at(s, p, 5) && cannot_start_at(s, p, 6) && cannot_start_at(s, p, 7) && cannot_start_at(s, p, 8) && cannot_start_at(s, p, 9) && cannot_start_at(s, p, 10) && cannot_start_at(s, p, 11) && cannot_start_at(s, p, 12)
}

proof fn lemma_absent(s: Seq<char>, p: Seq<char>)
    requires
        2 <= p.len(),
        s.len() <= 12,
        starts_nowhere(s, p),
    ensures
        !contains(s, p),
{
    if contains(s, p) {
        let at = choose|at: int| crate::text::chars_at(s, p, at);
        assert(s.subrange(at, at + p.len())[0] == p[0]);
        assert(s.subrange(at, at + p.len())[1] == p[1]);
        assert(s[at] == p[0] && s[at + 1] == p[1]);
        if at == 0 {
        } else if at == 1 {
        } else if at == 2 {
        } else if at == 3 {
        } else if at == 4 {
        } else if at == 5 {
        } else if at == 6 {
        } else if at == 7 {
        } else if at == 8 {
        } else if at == 9 {
        } else {
            assert(at == 10);
        }
    }
}

proof fn lemma_quiet(w: Seq<char>)
    requires
        0 < w.len() <= 12,
        starts_nowhere(w, "head"@),
        starts_nowhere(w, "layout"@),
        starts_nowhere(w, "upgrade"@),
        starts_nowhere(w, "view"@),
        starts_nowhere(w, "plan"@),
    ensures
        !names_noise(w),
{
    reveal_strlit("head");
    reveal_strlit("layout");
    reveal_strlit("upgrade");
    reveal_strlit("view");
    reveal_strlit("plan");
    lemma_absent(w, "head"@);
    lemma_absent(w, "layout"@);
    lemma_absent(w, "upgrade"@);
    lemma_absent(w, "view"@);
    lemma_absent(w, "plan"@);
}

/// Every storey word names a building storey, whatever its case and the
/// white space around it: ground floor, groundfloor, roof, mezzanine,
/// basement, podium, first floor, second floor and third floor.
pub proof fn storey_words_name_storeys(s: Seq<char>)
    requires
        ({
            let l = lower(trim(s));
            l == "ground floor"@ || l == "groundfloor"@ || l == "roof"@ || l == "mezzanine"@ || l == "basement"@ || l == "podium"@ || l == "first floor"@ || l == "second floor"@ || l == "third floor"@
        }),
    ensures
        spec_is_building_storey_name(s),
{
    let l = lower(trim(s));
    reveal_strlit("ground floor");
    reveal_strlit("groundfloor");
    reveal_strlit("roof");
    reveal_strlit("mezzanine");
    reveal_strlit("basement");
    reveal_strlit("podium");
    reveal_strlit("first floor");
    reveal_strlit("second floor");
    reveal_strlit("third floor");
    reveal_strlit("head");
    reveal_strlit("layout");
    reveal_strlit("upgrade");
    reveal_strlit("view");
    reveal_strlit("plan");
    if l == "ground floor"@ {
        lemma_quiet("ground floor"@);
    }
    if l == "groundfloor"@ {
        lemma_quiet("groundfloor"@);
    }
    if l == "roof"@ {
        lemma_quiet("roof"@);
    }
    if l == "mezzanine"@ {
        lemma_quiet("mezzanine"@);
    }
    if l == "basement"@ {
        lemma_quiet("basement"@);
    }
    if l == "podium"@ {
        lemma_quiet("podium"@);
    }
    if l == "first floor"@ {
        lemma_quiet("first floor"@);
    }
    if l == "second floor"@ {
        lemma_quiet("second floor"@);
    }
    if l == "third floor"@ {
        lemma_quiet("third floor"@);
    }
}

/// Any display name whose lower-cased text holds a material word
/// (concrete, gypsum, glass, steel, aluminum, aluminium, brick, insulation,
/// hardwood, masonry or wood) and is no material asset path (it holds
/// neither `mats/` nor `mats\` and does not end in `.xml`) is a material
/// candidate.
pub proof fn material_words_name_materials(s: Seq<char>, has_letter: bool)
    requires
        spec_display_name_given(s, has_letter),
        ({
            let l = lower(s);
            contains(l, "concrete"@) || contains(l, "gypsum"@) || contains(l, "glass"@) || contains(l, "steel"@) || contains(l, "aluminum"@) || contains(l, "aluminium"@) || contains(l, "brick"@) || contains(l, "insulation"@) || contains(l, "hardwood"@) || contains(l, "masonry"@) || contains(l, "wood"@)
        }),
        !contains(lower(s), "mats/"@),
        !contains(lower(s), "mats\\"@),
        !ends_with(lower(s), ".xml"@),
    ensures
        spec_classify_given(s, has_letter) == Some(NameBucket::MaterialLike),
{
    let l = lower(s);
    if contains(l, "wood"@) && contains(l, "hardwoodschema"@) {
        reveal_strlit("hardwood");
        reveal_strlit("hardwoodschema");
        let at = choose|at: int| crate::text::chars_at(l, "hardwoodschema"@, at);
        assert(l.subrange(at, at + 8) =~= "hardwood"@) by {
            assert forall|i: int| 0 <= i < 8 implies #[trigger] l.subrange(at, at + 8)[i] == "hardwood"@[i] by {
                assert(l.subrange(at, at + 14)[i] == "hardwoodschema"@[i]);
            }
        }
        assert(crate::text::chars_at(l, "hardwood"@, at));
    }
}

/// [`material_words_name_materials`] for [`classify_name`]: a display name
/// holding a material word and no asset path is a material candidate.
pub proof fn material_words_classify_as_materials(s: Seq<char>)
    requires
        spec_is_display_name(s),
        ({
            let l = lower(s);
            contains(l, "concrete"@) || contains(l, "gypsum"@) || contains(l, "glass"@) || contains(l, "steel"@) || contains(l, "aluminum"@) || contains(l, "aluminium"@) || contains(l, "brick"@) || contains(l, "insulation"@) || contains(l, "hardwood"@) || contains(l, "masonry"@) || contains(l, "wood"@)
        }),
        !contains(lower(s), "mats/"@),
        !contains(lower(s), "mats\\"@),
        !ends_with(lower(s), ".xml"@),
    ensures
        spec_classify_name(s) == Some(NameBucket::MaterialLike),
{
    material_words_name_materials(s, has_alphabetic(trim(s)));
}

/// No name holding view or family noise (head, layout, upgrade, view,
/// plan), in any case, names a building storey.
pub proof fn noise_names_no_storey(s: Seq<char>)
    requires
        ({
            let l = lower(trim(s));
            contains(l, "head"@) || contains(l, "layout"@) || contains(l, "upgrade"@) || contains(l, "view"@) || contains(l, "plan"@)
        }),
    ensures
        !spec_is_building_storey_name(s),
{
}

proof fn lemma_level_quiet(d: Seq<char>, p: Seq<char>)
    requires
        2 <= p.len(),
        forall|i: int| 0 <= i < d.len() ==> '0' <= #[trigger] d[i] <= '9',
        !('0' <= p[0] <= '9'),
        p[0] != ' ',
        !(p[0] == 'l' && p[1] == 'e'),
        !(p[0] == 'e' && p[1] == 'v'),
        !(p[0] == 'v' && p[1] == 'e'),
        !(p[0] == 'e' && p[1] == 'l'),
        !(p[0] == 'l' && p[1] == ' '),
    ensures
        !contains("level "@ + d, p),
{
    reveal_strlit("level ");
    let l = "level "@ + d;
    if contains(l, p) {
        let at = choose|at: int| crate::text::chars_at(l, p, at);
        assert(l.subrange(at, at + p.len())[0] == p[0]);
        assert(l.subrange(at, at + p.len())[1] == p[1]);
        if at >= 6 {
            assert(l[at] == d[at - 6]);
        } else if at == 5 {
        } else if at == 4 {
        } else if at == 3 {
        } else if at == 2 {
        } else if at == 1 {
        } else {
            assert(at == 0);
        }
    }
}

/// `Level` followed by a number names a building storey, whatever its case
/// and the white space around it.
pub proof fn numbered_levels_name_storeys(s: Seq<char>, d: Seq<char>)
    requires
        lower(trim(s)) == "level "@ + d,
        d.len() > 0,
        forall|i: int| 0 <= i < d.len() ==> '0' <= #[trigger] d[i] <= '9',
    ensures
        spec_is_building_storey_name(s),
{
    reveal_strlit("head");
    reveal_strlit("layout");
    reveal_strlit("upgrade");
    reveal_strlit("view");
    reveal_strlit("plan");
    reveal_strlit("level ");
    lemma_level_quiet(d, "head"@);
    lemma_level_quiet(d, "layout"@);
    lemma_level_quiet(d, "upgrade"@);
    lemma_level_quiet(d, "view"@);
    lemma_level_quiet(d, "plan"@);
    let l = lower(trim(s));
    assert(l.subrange(0, 6) =~= "level "@);
    assert(l.skip(6) =~= d);
}

/// A display name holding a material word and a material asset path
/// (`mats/`, `mats\`, or a `.xml` ending), in any case, is no candidate.
pub proof fn material_asset_paths_are_no_candidates(s: Seq<char>, has_letter: bool)
    requires
        ({
            let l = lower(s);
            contains(l, "concrete"@) || contains(l, "gypsum"@) || contains(l, "glass"@) || contains(l, "steel"@) || contains(l, "aluminum"@) || contains(l, "aluminium"@) || contains(l, "brick"@) || contains(l, "insulation"@) || contains(l, "hardwood"@) || contains(l, "masonry"@) || contains(l, "wood"@)
        }),
        contains(lower(s), "mats/"@) || contains(lower(s), "mats\\"@) || ends_with(lower(s), ".xml"@),
    ensures
        spec_classify_given(s, has_letter) is None,
{
    let l = lower(s);
    if contains(l, "wood"@) && contains(l, "hardwoodschema"@) {
        reveal_strlit("hardwood");
        reveal_strlit("hardwoodschema");
        let at = choose|at: int| crate::text::chars_at(l, "hardwoodschema"@, at);
        assert(l.subrange(at, at + 8) =~= "hardwood"@) by {
            assert forall|i: int| 0 <= i < 8 implies #[trigger] l.subrange(at, at + 8)[i] == "hardwood"@[i] by {
                assert(l.subrange(at, at + 14)[i] == "hardwoodschema"@[i]);
            }
        }
        assert(crate::text::chars_at(l, "hardwood"@, at));
    }
}

/// A display name with no material word that starts with `level `, is
/// `level 1`, `ground floor` or `roof`, or holds `first floor` or
/// `second floor`, in any case, is a level candidate.
pub proof fn level_words_name_levels(s: Seq<char>, has_letter: bool)
    requires
        spec_display_name_given(s, has_letter),
        !contains(lower(s), "concrete"@),
        !contains(lower(s), "gypsum"@),
        !contains(lower(s), "glass"@),
        !contains(lower(s), "steel"@),
        !contains(lower(s), "aluminum"@),
        !contains(lower(s), "aluminium"@),
        !contains(lower(s), "brick"@),
        !contains(lower(s), "insulation"@),
        !contains(lower(s), "hardwood"@),
        !contains(lower(s), "masonry"@),
        !contains(lower(s), "wood"@),
        ({
            let l = lower(s);
            starts_with(l, "level "@) || l == "level 1"@ || l == "ground floor"@ || l == "roof"@ || contains(
                l,
                "first floor"@,
            ) || contains(l, "second floor"@)
        }),
    ensures
        spec_classify_given(s, has_letter) == Some(NameBucket::LevelLike),
{
}

/// A display name of at most 48 UTF-8 bytes with no material or level
/// word that holds `conference`, `corridor`, `lobby`, `office` or
/// `classroom`, or starts with `space `, in any case, is a space candidate.
pub proof fn space_words_name_spaces(s: Seq<char>, has_letter: bool)
    requires
        spec_display_name_given(s, has_letter),
        !contains(lower(s), "concrete"@),
        !contains(lower(s), "gypsum"@),
        !contains(lower(s), "glass"@),
        !contains(lower(s), "steel"@),
        !contains(lower(s), "aluminum"@),
        !contains(lower(s), "aluminium"@),
        !contains(lower(s), "brick"@),
        !contains(lower(s), "insulation"@),
        !contains(lower(s), "hardwood"@),
        !contains(lower(s), "masonry"@),
        !contains(lower(s), "wood"@),
        ({
            let l = lower(s);
            !(starts_with(l, "level "@) || l == "level 1"@ || l == "ground floor"@ || l == "roof"@ || contains(
                l,
                "first floor"@,
            ) || contains(l, "second floor"@))
        }),
        ({
            let l = lower(s);
            contains(l, "conference"@) || contains(l, "corridor"@) || contains(l, "lobby"@) || contains(
                l,
                "office"@,
            ) || contains(l, "classroom"@) || starts_with(l, "space "@)
        }),
        utf8_len(s) <= 48,
    ensures
        spec_classify_given(s, has_letter) == Some(NameBucket::SpaceLike),
{
}

fn all_digits_or_space(s: &Vec<char>, from: usize) -> (r: bool)
    requires
        from <= s@.len(),
    ensures
        r == digits_or_space(s@.skip(from as int)),
{
    let mut i: usize = from;
    while i < s.len()
        invariant
            from <= i <= s@.len(),
            forall|j: int| from <= j < i ==> is_ascii_digit(#[trigger] s@[j]) || is_white_space(
                s@[j],
            ),
        decreases s@.len() - i,
    {
        let c = s[i];
        if !(('0' <= c && c <= '9') || white_space(c)) {
            assert(s@.skip(from as int)[i - from] == c);
            return false;
        }
        i += 1;
    }
    assert forall|j: int| 0 <= j < s@.skip(from as int).len() implies is_ascii_digit(
        #[trigger] s@.skip(from as int)[j],
    ) || is_white_space(s@.skip(from as int)[j]) by {
        assert(s@.skip(from as int)[j] == s@[from + j]);
    }
    true
}

/// Stricter filter for names that can label an `IfcBuildingStorey`: drops
/// the view and family noise that [`NameBucket::LevelLike`] still admits
/// (such as `"Level Head - Upgrade"` or a layout view), and accepts `Level`
/// followed by a number only.
pub fn is_building_storey_name(s: &str) -> (r: bool)
    ensures
        r == spec_is_building_storey_name(s@),
{
    let l = lower_chars(&trim_chars(&chars_of(s)));
    if l.len() == 0 {
        return false;
    }
    if contains_str(&l, "head") || contains_str(&l, "layout") || contains_str(&l, "upgrade")
        || contains_str(&l, "view") || contains_str(&l, "plan") {
        return false;
    }
    if equals_str(&l, "ground floor") || equals_str(&l, "groundfloor") || equals_str(&l, "roof")
        || equals_str(&l, "mezzanine") || equals_str(&l, "basement") || equals_str(&l, "podium") {
        return true;
    }
    if equals_str(&l, "first floor") || equals_str(&l, "second floor") || equals_str(
        &l,
        "third floor",
    ) {
        return true;
    }
    let prefix = chars_of("level ");
    if starts_with_str(&l, "level ") {
        let n = prefix.len();
        return n < l.len() && all_digits_or_space(&l, n);
    }
    false
}

/// Lexicographic order of character sequences, by code point.
pub open spec fn seq_lt(a: Seq<char>, b: Seq<char>) -> bool
    decreases a.len(),
{
    if b.len() == 0 {
        false
    } else if a.len() == 0 {
        true
    } else if a[0] != b[0] {
        a[0] < b[0]
    } else {
        seq_lt(a.drop_first(), b.drop_first())
    }
}

/// `seq_lt` is irreflexive.
pub proof fn lemma_seq_lt_irreflexive(a: Seq<char>)
    ensures
        !seq_lt(a, a),
    decreases a.len(),
{
    if a.len() > 0 {
        lemma_seq_lt_irreflexive(a.drop_first());
    }
}

/// `seq_lt` is transitive.
pub proof fn lemma_seq_lt_transitive(a: Seq<char>, b: Seq<char>, c: Seq<char>)
    requires
        seq_lt(a, b),
        seq_lt(b, c),
    ensures
        seq_lt(a, c),
    decreases a.len(),
{
    if a.len() > 0 && a[0] == b[0] && b[0] == c[0] {
        lemma_seq_lt_transitive(a.drop_first(), b.drop_first(), c.drop_first());
    }
}

/// Two different sequences are ordered one way or the other.
pub proof fn lemma_seq_lt_total(a: Seq<char>, b: Seq<char>)
    requires
        a != b,
    ensures
        seq_lt(a, b) || seq_lt(b, a),
    decreases a.len(),
{
    if a.len() == 0 {
        assert(b.len() > 0) by {
            if b.len() == 0 {
                assert(a =~= b);
            }
        }
    } else if b.len() == 0 {
    } else if a[0] == b[0] {
        if a.drop_first() == b.drop_first() {
            assert(a =~= seq![a[0]] + a.drop_first());
            assert(b =~= seq![b[0]] + b.drop_first());
        }
        lemma_seq_lt_total(a.drop_first(), b.drop_first());
    }
}

proof fn lemma_seq_lt_skip(a: Seq<char>, b: Seq<char>, i: int)
    requires
        0 <= i <= a.len(),
        i <= b.len(),
        forall|j: int| 0 <= j < i ==> a[j] == b[j],
    ensures
        seq_lt(a, b) == seq_lt(a.skip(i), b.skip(i)),
    decreases i,
{
    if i == 0 {
        assert(a.skip(0) =~= a);
        assert(b.skip(0) =~= b);
    } else {
        assert(a.drop_first().skip(i - 1) =~= a.skip(i));
        assert(b.drop_first().skip(i - 1) =~= b.skip(i));
        lemma_seq_lt_skip(a.drop_first(), b.drop_first(), i - 1);
    }
}

pub(crate) fn chars_lt(a: &Vec<char>, b: &Vec<char>) -> (r: bool)
    ensures
        r == seq_lt(a@, b@),
{
    let mut i: usize = 0;
    while i < a.len() && i < b.len() && a[i] == b[i]
        invariant
            i <= a@.len(),
            i <= b@.len(),
            forall|j: int| 0 <= j < i ==> a@[j] == b@[j],
        decreases a@.len() - i,
    {
        i += 1;
    }
    proof {
        lemma_seq_lt_skip(a@, b@, i as int);
    }
    if i == b.len() {
        false
    } else if i == a.len() {
        true
    } else {
        a[i] < b[i]
    }
}

fn chars_eq(a: &Vec<char>, b: &Vec<char>) -> (r: bool)
    ensures
        r == (a@ == b@),
{
    if a.len() != b.len() {
        return false;
    }
    let mut i: usize = 0;
    while i < a.len()
        invariant
            a@.len() == b@.len(),
            i <= a@.len(),
            forall|j: int| 0 <= j < i ==> a@[j] == b@[j],
        decreases a@.len() - i,
    {
        if a[i] != b[i] {
            return false;
        }
        i += 1;
    }
    assert(a@ =~= b@);
    true
}

/// The order of candidates: by bucket, then by name.
pub open spec fn pair_lt(x: (NameBucket, Seq<char>), y: (NameBucket, Seq<char>)) -> bool {
    bucket_rank(x.0) < bucket_rank(y.0) || (x.0 == y.0 && seq_lt(x.1, y.1))
}

/// Whether each candidate comes strictly before the next, so that none
/// occurs twice.
pub open spec fn strictly_sorted(s: Seq<(NameBucket, Seq<char>)>) -> bool {
    forall|i: int, j: int| 0 <= i < j < s.len() ==> pair_lt(#[trigger] s[i], #[trigger] s[j])
}

/// Whether each name comes strictly before the next.
pub open spec fn names_strictly_sorted(s: Seq<Seq<char>>) -> bool {
    forall|i: int, j: int| 0 <= i < j < s.len() ==> seq_lt(#[trigger] s[i], #[trigger] s[j])
}

proof fn lemma_pair_lt_transitive(
    x: (NameBucket, Seq<char>),
    y: (NameBucket, Seq<char>),
    z: (NameBucket, Seq<char>),
)
    requires
        pair_lt(x, y),
        pair_lt(y, z),
    ensures
        pair_lt(x, z),
{
    if x.0 == y.0 && y.0 == z.0 {
        lemma_seq_lt_transitive(x.1, y.1, z.1);
    }
}

proof fn lemma_pair_lt_total(x: (NameBucket, Seq<char>), y: (NameBucket, Seq<char>))
    requires
        x != y,
    ensures
        pair_lt(x, y) || pair_lt(y, x),
{
    if x.0 == y.0 {
        lemma_seq_lt_total(x.1, y.1);
    }
}

/// A candidate of the input: the trimmed text of an input string, with its
/// bucket.
pub open spec fn is_candidate(strings: Seq<&str>, p: (NameBucket, Seq<char>)) -> bool {
    exists|i: int|
        0 <= i < strings.len() && spec_classify_name(#[trigger] strings[i]@) == Some(p.0) && p.1
            == trim(strings[i]@)
}

/// The candidates as buckets and character sequences.
pub open spec fn candidate_views(v: Seq<(NameBucket, String)>) -> Seq<(NameBucket, Seq<char>)> {
    v.map_values(|p: (NameBucket, String)| (p.0, p.1@))
}

spec fn key_views(v: Seq<(NameBucket, Vec<char>)>) -> Seq<(NameBucket, Seq<char>)> {
    v.map_values(|p: (NameBucket, Vec<char>)| (p.0, p.1@))
}

fn pair_less(b: NameBucket, name: &Vec<char>, c: NameBucket, other: &Vec<char>) -> (r: bool)
    ensures
        r == pair_lt((b, name@), (c, other@)),
{
    let rb = rank_of(b);
    let rc = rank_of(c);
    if rb < rc {
        true
    } else if rb == rc {
        if b == c {
            chars_lt(name, other)
        } else {
            false
        }
    } else {
        false
    }
}

fn insert_sorted(keys: &mut Vec<(NameBucket, Vec<char>)>, b: NameBucket, name: Vec<char>)
    requires
        strictly_sorted(key_views(old(keys)@)),
    ensures
        strictly_sorted(key_views(final(keys)@)),
        forall|p: (NameBucket, Seq<char>)|
            key_views(final(keys)@).contains(p) <==> (key_views(old(keys)@).contains(p) || p == (
            b,
            name@,
        )),
{
    let ghost x = (b, name@);
    let ghost old_v = key_views(keys@);
    let mut p: usize = 0;
    while p < keys.len() && pair_less(keys[p].0, &keys[p].1, b, &name)
        invariant
            p <= keys@.len(),
            keys@ == old(keys)@,
            old_v == key_views(keys@),
            x == (b, name@),
            strictly_sorted(old_v),
            forall|j: int| 0 <= j < p ==> pair_lt(#[trigger] old_v[j], x),
        decreases keys@.len() - p,
    {
        p += 1;
    }
    if p < keys.len() && keys[p].0 == b && chars_eq(&keys[p].1, &name) {
        assert(old_v[p as int] == x);
        assert forall|q: (NameBucket, Seq<char>)|
            key_views(keys@).contains(q) <==> (old_v.contains(q) || q == x) by {
            if q == x {
                assert(key_views(keys@)[p as int] == q);
            }
        }
        return ;
    }
    proof {
        if p < old_v.len() {
            assert(old_v[p as int] != x);
            lemma_pair_lt_total(old_v[p as int], x);
            assert forall|k: int| p <= k < old_v.len() implies pair_lt(x, #[trigger] old_v[k]) by {
                if k > p {
                    lemma_pair_lt_transitive(x, old_v[p as int], old_v[k]);
                }
            }
        }
    }
    keys.insert(p, (b, name));
    let ghost new_v = key_views(keys@);
    assert(new_v =~= old_v.insert(p as int, x));
    assert forall|i: int, j: int| 0 <= i < j < new_v.len() implies pair_lt(
        #[trigger] new_v[i],
        #[trigger] new_v[j],
    ) by {
        if j < p {
        } else if j == p {
        } else if i < p {
            assert(pair_lt(x, old_v[j - 1]));
            lemma_pair_lt_transitive(old_v[i], x, old_v[j - 1]);
        } else if i == p {
            assert(pair_lt(x, old_v[j - 1]));
        } else {
        }
    }
    assert forall|q: (NameBucket, Seq<char>)| new_v.contains(q) <==> (old_v.contains(q) || q == x) by {
        if new_v.contains(q) {
            let k = choose|k: int| 0 <= k < new_v.len() && new_v[k] == q;
            if k < p {
                assert(old_v[k] == q);
            } else if k > p {
                assert(old_v[k - 1] == q);
            }
        }
        if old_v.contains(q) {
            let k = choose|k: int| 0 <= k < old_v.len() && old_v[k] == q;
            if k < p {
                assert(new_v[k] == q);
            } else {
                assert(new_v[k + 1] == q);
            }
        }
        if q == x {
            assert(new_v[p as int] == q);
        }
    }
}

/// The unique `(bucket, name)` pairs among `strings`, ordered by bucket and
/// then by name; each name is trimmed.
pub fn collect_name_candidates(strings: &[&str]) -> (r: Vec<(NameBucket, String)>)
    ensures
        strictly_sorted(candidate_views(r@)),
        forall|p: (NameBucket, Seq<char>)|
            candidate_views(r@).contains(p) <==> is_candidate(strings@, p),
{
    let mut keys: Vec<(NameBucket, Vec<char>)> = Vec::new();
    let mut i: usize = 0;
    while i < strings.len()
        invariant
            i <= strings@.len(),
            strictly_sorted(key_views(keys@)),
            forall|p: (NameBucket, Seq<char>)|
                key_views(keys@).contains(p) <==> is_candidate(strings@.subrange(0, i as int), p),
        decreases strings@.len() - i,
    {
        let s = strings[i];
        let ghost before = key_views(keys@);
        if let Some(b) = classify_name(s) {
            let name = trim_chars(&chars_of(s));
            insert_sorted(&mut keys, b, name);
        }
        assert forall|p: (NameBucket, Seq<char>)|
            key_views(keys@).contains(p) <==> is_candidate(strings@.subrange(0, i + 1), p) by {
            let sub = strings@.subrange(0, i + 1);
            if is_candidate(sub, p) {
                let k = choose|k: int|
                    0 <= k < sub.len() && spec_classify_name(#[trigger] sub[k]@) == Some(p.0)
                        && p.1 == trim(sub[k]@);
                if k < i {
                    assert(strings@.subrange(0, i as int)[k] == sub[k]);
                }
            }
            if is_candidate(strings@.subrange(0, i as int), p) {
                let k = choose|k: int|
                    0 <= k < i && spec_classify_name(
                        #[trigger] strings@.subrange(0, i as int)[k]@,
                    ) == Some(p.0) && p.1 == trim(strings@.subrange(0, i as int)[k]@);
                assert(sub[k] == strings@.subrange(0, i as int)[k]);
            }
            if key_views(keys@).contains(p) && !before.contains(p) {
                assert(sub[i as int] == s);
            }
        }
        i += 1;
    }
    assert(strings@.subrange(0, strings@.len() as int) =~= strings@);
    let mut out: Vec<(NameBucket, String)> = Vec::new();
    let mut k: usize = 0;
    while k < keys.len()
        invariant
            k <= keys@.len(),
            candidate_views(out@) =~= key_views(keys@).subrange(0, k as int),
        decreases keys@.len() - k,
    {
        let text = string_of(&keys[k].1);
        let ghost before = out@;
        out.push((keys[k].0, text));
        assert(candidate_views(out@) =~= candidate_views(before).push((keys@[k as int].0, keys@[k as int].1@)));
        assert(key_views(keys@).subrange(0, k + 1) =~= key_views(keys@).subrange(0, k as int).push(key_views(keys@)[k as int]));
        k += 1;
    }
    assert(key_views(keys@).subrange(0, keys@.len() as int) =~= key_views(keys@));
    out
}

/// The texts of a sequence of strings.
pub open spec fn string_views(v: Seq<String>) -> Seq<Seq<char>> {
    v.map_values(|n: String| n@)
}

/// Level-like candidates of `strings` that pass
/// [`is_building_storey_name`], ordered by name, each once.
pub fn building_storey_name_candidates(strings: &[&str]) -> (r: Vec<String>)
    ensures
        names_strictly_sorted(string_views(r@)),
        forall|n: Seq<char>|
            string_views(r@).contains(n) <==> (is_candidate(strings@, (NameBucket::LevelLike, n))
                && spec_is_building_storey_name(n)),
{
    let candidates = collect_name_candidates(strings);
    let ghost cv = candidate_views(candidates@);
    let mut names: Vec<String> = Vec::new();
    let ghost mut taken: Seq<int> = Seq::empty();
    let mut i: usize = 0;
    while i < candidates.len()
        invariant
            i <= candidates@.len(),
            cv == candidate_views(candidates@),
            strictly_sorted(cv),
            taken.len() == names@.len(),
            forall|k: int| 0 <= k < taken.len() ==> 0 <= #[trigger] taken[k] < i,
            forall|k: int, m: int|
                0 <= k < m < taken.len() ==> #[trigger] taken[k] < #[trigger] taken[m],
            forall|k: int|
                0 <= k < taken.len() ==> cv[#[trigger] taken[k]] == (
                    NameBucket::LevelLike,
                    names@[k]@,
                ),
            forall|n: Seq<char>|
                #[trigger] string_views(names@).contains(n) <==> (cv.subrange(0, i as int).contains(
                    (NameBucket::LevelLike, n),
                ) && spec_is_building_storey_name(n)),
        decreases candidates@.len() - i,
    {
        let bucket = candidates[i].0;
        let keep = bucket == NameBucket::LevelLike && is_building_storey_name(
            candidates[i].1.as_str(),
        );
        let ghost before = names@;
        let ghost c = cv[i as int];
        assert(c == (candidates@[i as int].0, candidates@[i as int].1@));
        assert(keep == (c.0 == NameBucket::LevelLike && spec_is_building_storey_name(c.1)));
        if keep {
            names.push(candidates[i].1.clone());
            proof {
                taken = taken.push(i as int);
                assert(string_views(names@) =~= string_views(before).push(c.1));
            }
        }
        proof {
            assert(cv.subrange(0, i + 1) =~= cv.subrange(0, i as int).push(c));
            assert forall|n: Seq<char>|
                #[trigger] string_views(names@).contains(n) <==> (cv.subrange(0, i + 1).contains(
                    (NameBucket::LevelLike, n),
                ) && spec_is_building_storey_name(n)) by {
                crate::bytes::lemma_push_contains(cv.subrange(0, i as int), c, (NameBucket::LevelLike, n));
                assert(string_views(before).contains(n) <==> (cv.subrange(0, i as int).contains(
                    (NameBucket::LevelLike, n),
                ) && spec_is_building_storey_name(n)));
                if keep {
                    crate::bytes::lemma_push_contains(string_views(before), c.1, n);
                } else {
                    assert(string_views(names@) == string_views(before));
                }
            }
        }
        i += 1;
    }
    let ghost nv = string_views(names@);
    assert forall|k: int, m: int| 0 <= k < m < nv.len() implies seq_lt(
        #[trigger] nv[k],
        #[trigger] nv[m],
    ) by {
        assert(cv[taken[k]] == (NameBucket::LevelLike, nv[k]));
        assert(cv[taken[m]] == (NameBucket::LevelLike, nv[m]));
        assert(pair_lt(cv[taken[k]], cv[taken[m]]));
    }
    assert(cv.subrange(0, cv.len() as int) =~= cv);
    names
}

} // verus!
