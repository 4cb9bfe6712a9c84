//! Host types' compound-structure framing and which side of a wall is its
//! exterior: the per-release tags and offsets, and a wall's orientation
//! words.

use vstd::prelude::*;
use std::collections::{BTreeMap, BTreeSet};
use crate::bytes::{
    find_from, find_iter_all, find_next, iter_hits_from, keep_some, le_u16, le_u32, le_u64, read_u16, lemma_keep_some_push,
    lemma_next_occurrence_bounds, lemma_next_occurrence_found, next_occurrence, occurs_at, positions,
    read_u32, read_u64,
};
use crate::collapse::{collapse_values, collapsed, id_values, is_collapse_of, names_id, Comparable};
use crate::partitions::{partition_views, InflatedPartition};
use crate::partition_element_records::{f64_bits_finite, f64_bits_key, f64_finite, f64_key};

verus! {

broadcast use vstd::std_specs::btree::group_btree_axioms;

/// Bytes per layer record.
pub const LAYER_RECORD_LEN: usize = 37;
/// Most layers a type is taken to have.
pub const MAX_LAYERS: usize = 32;
/// How far into a type's data the layers are looked for.
pub const LAYER_WINDOW: usize = 0x2000;
/// Longest type name, in UTF-16 code units, a name-framed layer count is
/// looked for behind.
pub const MAX_NAME_UNITS: usize = 256;
/// The bytes a wall's location line, a word and its flip flag follow.
pub const WALL_FLIP_ANCHOR: [u8; 8] = [0xff, 0xff, 0xff, 0xff, 0x01, 0x00, 0x00, 0x00];
/// The word that opens a wall's join list.
pub const WALL_JOIN_LIST_WORD: [u8; 4] = [0x07, 0x00, 0x00, 0x00];
/// Bytes per join-list entry: `u32 · u64 ElementId · u32`.
pub const WALL_JOIN_ENTRY_LEN: usize = 16;
/// Most entries a join list is taken to have.
pub const MAX_WALL_JOIN_ENTRIES: usize = 64;
/// How far into a wall's data its join lists are looked for.
pub const WALL_JOIN_WINDOW: usize = 0x1_0000;

/// The tag framing a type's layer count: `0x10a6` on Revit 2024, `0x110e`
/// on Revit 2025, none elsewhere.
pub fn layer_frame_tag(revit_version: u32) -> (r: Option<[u8; 2]>)
    ensures
        revit_version == 2024 ==> r == Some([0xa6u8, 0x10u8]),
        revit_version == 2025 ==> r == Some([0x0eu8, 0x11u8]),
        revit_version != 2024 && revit_version != 2025 ==> r is None,
{
    if revit_version == 2024 {
        Some([0xa6, 0x10])
    } else if revit_version == 2025 {
        Some([0x0e, 0x11])
    } else {
        None
    }
}

/// Where a join list's count sits past its opening word: 12 on Revit 2024,
/// 16 on Revit 2025 (a zero `u32` comes first), none where the layout is
/// not measured.
pub fn wall_join_count_offset(revit_version: u32) -> (r: Option<usize>)
    ensures
        revit_version == 2024 ==> r == Some(12usize),
        revit_version == 2025 ==> r == Some(16usize),
        revit_version != 2024 && revit_version != 2025 ==> r is None,
{
    if revit_version == 2024 {
        Some(12)
    } else if revit_version == 2025 {
        Some(16)
    } else {
        None
    }
}

/// What a wall's data says about its location line and its sides.
#[derive(Debug, Clone, Copy, PartialEq, Eq, Structural)]
pub struct WallOrientation {
    /// Revit's location-line setting, 0 to 5. The stored line is the
    /// wall's centreline whatever it is.
    pub location_line: u32,
    /// A word of 0 to 2.
    pub word: u32,
    /// Set puts the wall's exterior to the right of its location line's
    /// direction; clear, to the left.
    pub flip: bool,
}

/// The eight anchor bytes a wall's orientation words follow.
pub open spec fn flip_anchor() -> Seq<u8> {
    seq![0xffu8, 0xff, 0xff, 0xff, 0x01, 0x00, 0x00, 0x00]
}

/// The orientation read after the anchor occurrence at `a`: three `u32`
/// words, a location line of at most 5, a word of at most 2, and a flag of
/// 0 or 1.
pub open spec fn orientation_after(data: Seq<u8>, a: int) -> Option<WallOrientation> {
    let at = a + 8;
    if at + 12 > data.len() {
        None
    } else {
        let line = le_u32(data, at);
        let word = le_u32(data, at + 4);
        let flag = le_u32(data, at + 8);
        if (flag == 0 || flag == 1) && line <= 5 && word <= 2 {
            Some(WallOrientation { location_line: line as u32, word: word as u32, flip: flag == 1 })
        } else {
            None
        }
    }
}

/// A wall's orientation: read after the first occurrence of
/// [`WALL_FLIP_ANCHOR`] in its data.
pub open spec fn spec_wall_orientation(data: Seq<u8>) -> Option<WallOrientation> {
    match next_occurrence(data, flip_anchor(), 0) {
        Some(a) => orientation_after(data, a),
        None => None,
    }
}

/// A wall's orientation, from its data: the three `u32` after the first
/// [`WALL_FLIP_ANCHOR`]. `None` without the anchor or with values a wall
/// does not take.
pub fn wall_orientation(data: &[u8]) -> (r: Option<WallOrientation>)
    ensures
        r == spec_wall_orientation(data@),
{
    let anchor = WALL_FLIP_ANCHOR;
    assert(anchor@ =~= flip_anchor());
    let a = match find_next(data, 0, anchor.as_slice()) {
        Some(a) => a,
        None => {
            return None;
        },
    };
    proof {
        lemma_next_occurrence_bounds(data@, flip_anchor(), 0);
    }
    let n = data.len();
    assert(a + 8 <= n);
    let at = a + 8;
    let line = match read_u32(data, at) {
        Some(v) => v,
        None => {
            return None;
        },
    };
    let word = match read_u32(data, at + 4) {
        Some(v) => v,
        None => {
            return None;
        },
    };
    let flag = match read_u32(data, at + 8) {
        Some(v) => v,
        None => {
            return None;
        },
    };
    let flip = if flag == 0 {
        false
    } else if flag == 1 {
        true
    } else {
        return None;
    };
    if line <= 5 && word <= 2 {
        Some(WallOrientation { location_line: line, word, flip })
    } else {
        None
    }
}

impl View for WallOrientation {
    type V = WallOrientation;

    open spec fn view(&self) -> WallOrientation {
        *self
    }
}

impl Comparable for WallOrientation {
    fn same(&self, other: &Self) -> (r: bool) {
        *self == *other
    }

    fn duplicate(&self) -> (r: Self) {
        *self
    }
}

/// Where the data of the element whose header is the `k`-th of `hits`
/// ends: at the next header, `window` bytes past this one, or the end of
/// the buffer, whichever comes first.
pub open spec fn window_end(b: Seq<u8>, hits: Seq<int>, k: int, window: int) -> int {
    let next = if k + 1 < hits.len() { hits[k + 1] } else { b.len() as int };
    let capped = if next <= hits[k] + window { next } else { hits[k] + window };
    if capped <= b.len() { capped } else { b.len() as int }
}

/// The ElementId after the `k`-th header, when its `u64` fits the buffer,
/// is a `u32` and is one of `ids`.
pub open spec fn header_element(b: Seq<u8>, hits: Seq<int>, k: int, hlen: int, ids: Set<u32>) -> Option<
    u32,
> {
    let id_at = hits[k] + hlen;
    if id_at + 8 <= b.len() && le_u64(b, id_at) <= 0xffff_ffff && ids.contains(
        le_u64(b, id_at) as u32,
    ) {
        Some(le_u64(b, id_at) as u32)
    } else {
        None
    }
}

/// The element's data after the `k`-th header: from past its ElementId to
/// [`window_end`].
pub open spec fn element_data(b: Seq<u8>, hits: Seq<int>, k: int, hlen: int, window: int) -> Option<
    Seq<u8>,
> {
    let start = hits[k] + hlen + 8;
    let end = window_end(b, hits, k, window);
    if start <= end {
        Some(b.subrange(start, end))
    } else {
        None
    }
}

/// The element and its data for the `k`-th header: `(id, start, end)`.
fn element_window(
    buf: &[u8],
    hits: &Vec<usize>,
    k: usize,
    hlen: usize,
    window: usize,
    ids: &BTreeSet<u32>,
) -> (r: Option<(u32, usize, usize)>)
    requires
        k < hits@.len(),
        forall|j: int| 0 <= j < hits@.len() ==> #[trigger] hits@[j] + hlen <= buf@.len(),
    ensures
        match r {
            Some((id, start, end)) => {
                &&& header_element(buf@, positions(hits@), k as int, hlen as int, ids@) == Some(id)
                &&& element_data(buf@, positions(hits@), k as int, hlen as int, window as int) == Some(
                    buf@.subrange(start as int, end as int),
                )
                &&& start <= end <= buf@.len()
            },
            None => header_element(buf@, positions(hits@), k as int, hlen as int, ids@) is None
                || element_data(buf@, positions(hits@), k as int, hlen as int, window as int) is None,
        },
{
    let ghost ps = positions(hits@);
    let hit = hits[k];
    let len = buf.len();
    let id_at = hit + hlen;
    if len - id_at < 8 {
        return None;
    }
    let raw = read_u64(buf, id_at).unwrap();
    if raw > 0xffff_ffff || !ids.contains(&(raw as u32)) {
        return None;
    }
    let next = if k < hits.len() - 1 { hits[k + 1] } else { len };
    let capped = if next <= hit || next - hit <= window { next } else { hit + window };
    let end = if capped <= len { capped } else { len };
    assert(end == window_end(buf@, ps, k as int, window as int));
    let start = id_at + 8;
    if start > end {
        return None;
    }
    Some((raw as u32, start, end))
}

/// The orientation the `k`-th header's element data gives a wall.
pub open spec fn orientation_entry(b: Seq<u8>, h: Seq<u8>, walls: Set<u32>, k: int) -> Option<
    (u32, WallOrientation),
> {
    let hits = iter_hits_from(b, h, 0);
    match header_element(b, hits, k, h.len() as int, walls) {
        None => None,
        Some(id) => match element_data(b, hits, k, h.len() as int, LAYER_WINDOW as int) {
            None => None,
            Some(d) => match spec_wall_orientation(d) {
                None => None,
                Some(o) => Some((id, o)),
            },
        },
    }
}

/// [`orientation_entry`] for a fixed buffer.
pub open spec fn orientation_fn(b: Seq<u8>, h: Seq<u8>, walls: Set<u32>) -> spec_fn(int) -> Option<
    (u32, WallOrientation),
> {
    |k: int| orientation_entry(b, h, walls, k)
}

/// The indices of a list of `n` items.
pub open spec fn indices(n: nat) -> Seq<int> {
    Seq::new(n, |k: int| k)
}

/// The wall orientations one buffer holds, in header order.
pub open spec fn buffer_orientations(b: Seq<u8>, h: Seq<u8>, walls: Set<u32>) -> Seq<
    (u32, WallOrientation),
> {
    keep_some(indices(iter_hits_from(b, h, 0).len()), orientation_fn(b, h, walls))
}

/// The wall orientations every stream holds, in stream order.
pub open spec fn all_orientations(parts: Seq<(Seq<char>, Seq<u8>)>, h: Seq<u8>, walls: Set<u32>) -> Seq<
    (u32, WallOrientation),
>
    decreases parts.len(),
{
    if parts.len() == 0 {
        Seq::empty()
    } else {
        all_orientations(parts.drop_last(), h, walls) + buffer_orientations(parts.last().1, h, walls)
    }
}

/// Every `(wall, orientation)` of one buffer: the elements after each
/// element-data header, in order.
fn find_orientations(buf: &[u8], header: &[u8], walls: &BTreeSet<u32>) -> (r: Vec<(u32, WallOrientation)>)
    requires
        header@.len() > 0,
    ensures
        id_values(r@) == buffer_orientations(buf@, header@, walls@),
{
    let hits = find_iter_all(buf, header);
    let ghost ps = positions(hits@);
    let ghost f = orientation_fn(buf@, header@, walls@);
    let mut out: Vec<(u32, WallOrientation)> = Vec::new();
    let mut k: usize = 0;
    assert(indices(0) =~= Seq::<int>::empty());
    while k < hits.len()
        invariant
            k <= hits@.len(),
            ps == positions(hits@),
            ps == iter_hits_from(buf@, header@, 0),
            forall|j: int| 0 <= j < hits@.len() ==> #[trigger] hits@[j] + header@.len() <= buf@.len(),
            f == orientation_fn(buf@, header@, walls@),
            id_values(out@) == keep_some(indices(k as nat), f),
        decreases hits@.len() - k,
    {
        let ghost before = out@;
        proof {
            assert(indices((k + 1) as nat) =~= indices(k as nat).push(k as int));
            lemma_keep_some_push(indices(k as nat), k as int, f);
        }
        match element_window(buf, &hits, k, header.len(), LAYER_WINDOW, walls) {
            Some((id, start, end)) => {
                let data = &buf[start..end];
                let got = wall_orientation(data);
                proof {
                    assert(data@ == buf@.subrange(start as int, end as int));
                    assert(f(k as int) == match got {
                        Some(o) => Some((id, o)),
                        None => None,
                    });
                }
                match got {
                    Some(o) => {
                        out.push((id, o));
                        assert(id_values(out@) =~= id_values(before).push((id, o)));
                    },
                    None => {},
                }
            },
            None => {
                assert(f(k as int) is None);
            },
        }
        k += 1;
    }
    out
}

/// Every wall's orientation, by ElementId, read from the element data after
/// each element-data `header` in every partition. Only walls in `walls`
/// count; a wall whose copies disagree is dropped. Empty without a header
/// (a release the layout is not measured on).
pub fn scan_wall_orientations(
    partitions: &[InflatedPartition],
    header: Option<[u8; 10]>,
    walls: &BTreeSet<u32>,
) -> (r: BTreeMap<u32, WallOrientation>)
    ensures
        header is None ==> r@.is_empty(),
        header matches Some(h) ==> is_collapse_of(
            r@,
            all_orientations(partition_views(partitions@), h@, walls@),
        ),
{
    let hdr = match header {
        Some(h) => h,
        None => {
            let empty = BTreeMap::new();
            assert(empty@ =~= Map::<u32, WallOrientation>::empty());
            return empty;
        },
    };
    let ghost parts = partition_views(partitions@);
    let mut entries: Vec<(u32, WallOrientation)> = Vec::new();
    let mut i: usize = 0;
    while i < partitions.len()
        invariant
            i <= partitions@.len(),
            parts == partition_views(partitions@),
            id_values(entries@) == all_orientations(parts.take(i as int), hdr@, walls@),
        decreases partitions@.len() - i,
    {
        let part = &partitions[i];
        let mut found = find_orientations(part.bytes.as_slice(), &hdr, walls);
        let ghost before = entries@;
        let ghost got = found@;
        entries.append(&mut found);
        assert(id_values(entries@) =~= id_values(before) + id_values(got));
        proof {
            assert(parts.take(i + 1).drop_last() =~= parts.take(i as int));
            assert(parts.take(i + 1).last() == parts[i as int]);
            assert(parts[i as int] == (part.stream@, part.bytes@));
        }
        i += 1;
    }
    assert(parts.take(parts.len() as int) =~= parts);
    collapse_values(&entries)
}

/// The ElementId of entry `index` of the join list opening at `at`, when
/// its `u64` fits the data, is a `u32` and is one of `walls`.
pub open spec fn join_entry(d: Seq<u8>, at: int, count_at: int, index: int, walls: Set<u32>) -> Option<u32> {
    let p = at + count_at + 8 + WALL_JOIN_ENTRY_LEN * index;
    if p + 8 <= d.len() && le_u64(d, p) <= 0xffff_ffff && walls.contains(le_u64(d, p) as u32) {
        Some(le_u64(d, p) as u32)
    } else {
        None
    }
}

/// The join list opening with [`WALL_JOIN_LIST_WORD`] at `at`: a `u32` tag,
/// a `u32` 2, on Revit 2025 a zero `u32`, then a count of 1 to
/// [`MAX_WALL_JOIN_ENTRIES`] entries at `count_at`, every one naming a
/// wall.
pub open spec fn join_list_at(d: Seq<u8>, count_at: int, walls: Set<u32>, at: int) -> Option<
    (u32, Seq<u32>),
> {
    let count = le_u32(d, at + count_at);
    if at + 8 + 4 <= d.len() && at + count_at + 4 <= d.len() && le_u32(d, at + 8) == 2 && 1 <= count
        <= MAX_WALL_JOIN_ENTRIES && (count_at <= 12 || (at + 16 <= d.len() && le_u32(d, at + 12)
        == 0)) && forall|i: int| 0 <= i < count ==> #[trigger] join_entry(d, at, count_at, i, walls) is Some {
        Some(
            (
                le_u32(d, at + 4) as u32,
                Seq::new(count as nat, |i: int| join_entry(d, at, count_at, i, walls)->0),
            ),
        )
    } else {
        None
    }
}

/// [`join_list_at`] for fixed data.
pub open spec fn join_list_fn(d: Seq<u8>, count_at: int, walls: Set<u32>) -> spec_fn(int) -> Option<
    (u32, Seq<u32>),
> {
    |at: int| join_list_at(d, count_at, walls, at)
}

/// The join-list opening word.
pub open spec fn join_word() -> Seq<u8> {
    seq![0x07u8, 0x00, 0x00, 0x00]
}

/// The join lists in a wall's data, in the order `memmem::find_iter`
/// reports their opening words.
pub open spec fn spec_wall_join_lists(d: Seq<u8>, count_at: int, walls: Set<u32>) -> Seq<(u32, Seq<u32>)> {
    keep_some(iter_hits_from(d, join_word(), 0), join_list_fn(d, count_at, walls))
}

/// Join lists as values.
pub open spec fn join_views(v: Seq<(u32, Vec<u32>)>) -> Seq<(u32, Seq<u32>)> {
    v.map_values(|p: (u32, Vec<u32>)| (p.0, p.1@))
}

fn join_list(data: &[u8], at: usize, count_at: usize, walls: &BTreeSet<u32>) -> (r: Option<(u32, Vec<u32>)>)
    requires
        at + 4 <= data@.len(),
    ensures
        match r {
            Some(l) => join_list_at(data@, count_at as int, walls@, at as int) == Some((l.0, l.1@)),
            None => join_list_at(data@, count_at as int, walls@, at as int) is None,
        },
{
    let len = data.len();
    if len - at < 12 || count_at > len - at || len - at - count_at < 4 {
        return None;
    }
    let tag = read_u32(data, at + 4).unwrap();
    let two = read_u32(data, at + 8).unwrap();
    let count = read_u32(data, at + count_at).unwrap();
    if two != 2 || count == 0 || count as usize > MAX_WALL_JOIN_ENTRIES {
        return None;
    }
    if count_at > 12 {
        if len - at < 16 || read_u32(data, at + 12).unwrap() != 0 {
            return None;
        }
    }
    let n = count as usize;
    let ghost d = data@;
    let mut named: Vec<u32> = Vec::new();
    let mut i: usize = 0;
    while i < n
        invariant
            i <= n <= MAX_WALL_JOIN_ENTRIES,
            d == data@,
            len == d.len(),
            at + count_at + 4 <= len,
            n == le_u32(d, at + count_at),
            named@ == Seq::new(i as nat, |k: int| join_entry(d, at as int, count_at as int, k, walls@)->0),
            forall|k: int| 0 <= k < i ==> #[trigger] join_entry(d, at as int, count_at as int, k, walls@) is Some,
        decreases n - i,
    {
        let need = WALL_JOIN_ENTRY_LEN * i + 16;
        if len - at - count_at < need {
            assert(join_entry(d, at as int, count_at as int, i as int, walls@) is None);
            return None;
        }
        let p = at + count_at + 8 + WALL_JOIN_ENTRY_LEN * i;
        let raw = read_u64(data, p).unwrap();
        if raw > 0xffff_ffff || !walls.contains(&(raw as u32)) {
            assert(join_entry(d, at as int, count_at as int, i as int, walls@) is None);
            return None;
        }
        named.push(raw as u32);
        assert(named@ =~= Seq::new((i + 1) as nat, |k: int| join_entry(d, at as int, count_at as int, k, walls@)->0));
        i += 1;
    }
    Some((tag, named))
}

/// Every join list in a wall's data: each [`WALL_JOIN_LIST_WORD`] followed
/// by `u32 tag · u32 2`, on Revit 2025 a zero `u32`, and a count at
/// `count_at` past the word of 1 to [`MAX_WALL_JOIN_ENTRIES`] entries
/// (`u32 · u64 ElementId · u32`), every one naming a wall. A list naming
/// anything else is not a join list.
pub fn wall_join_lists(data: &[u8], count_at: usize, walls: &BTreeSet<u32>) -> (r: Vec<(u32, Vec<u32>)>)
    ensures
        join_views(r@) == spec_wall_join_lists(data@, count_at as int, walls@),
{
    let word = WALL_JOIN_LIST_WORD;
    let ghost n = word@;
    assert(n =~= join_word());
    let ghost f = join_list_fn(data@, count_at as int, walls@);
    let len = data.len();
    let mut out: Vec<(u32, Vec<u32>)> = Vec::new();
    let mut cursor: usize = 0;
    while cursor <= len && len - cursor >= 4
        invariant
            len == data@.len(),
            n == word@,
            n == join_word(),
            f == join_list_fn(data@, count_at as int, walls@),
            keep_some(iter_hits_from(data@, n, 0), f) == join_views(out@) + keep_some(
                iter_hits_from(data@, n, cursor as int),
                f,
            ),
        ensures
            iter_hits_from(data@, n, cursor as int) == Seq::<int>::empty(),
        decreases len + 1 - cursor,
    {
        let at = match find_from(data, cursor, &word) {
            Some(h) => h,
            None => {
                proof {
                    crate::bytes::lemma_iter_hits_none(data@, n, cursor as int);
                }
                break;
            },
        };
        proof {
            crate::bytes::lemma_iter_hits_skip(data@, n, cursor as int, at as int);
            crate::bytes::lemma_iter_hits_step(data@, n, at as int);
            crate::bytes::lemma_keep_some_step(iter_hits_from(data@, n, at as int), f);
            assert((seq![at as int] + iter_hits_from(data@, n, at + 4)).drop_first()
                =~= iter_hits_from(data@, n, at + 4));
        }
        let ghost before = out@;
        match join_list(data, at, count_at, walls) {
            Some(l) => {
                let ghost e = (l.0, l.1@);
                out.push(l);
                proof {
                    assert(join_views(out@) =~= join_views(before).push(e));
                    assert(join_views(out@) + keep_some(iter_hits_from(data@, n, at + 4), f)
                        =~= join_views(before) + (seq![e] + keep_some(iter_hits_from(data@, n, at + 4), f)));
                }
            },
            None => {},
        }
        cursor = at + 4;
    }
    proof {
        assert(join_views(out@) + Seq::<(u32, Seq<u32>)>::empty() =~= join_views(out@));
    }
    out
}

/// The join lists one wall's data holds.
#[derive(Debug)]
pub struct WallJoinLists {
    pub lists: Vec<(u32, Vec<u32>)>,
}

impl View for WallJoinLists {
    type V = Seq<(u32, Seq<u32>)>;

    open spec fn view(&self) -> Seq<(u32, Seq<u32>)> {
        join_views(self.lists@)
    }
}

fn same_ids(a: &Vec<u32>, b: &Vec<u32>) -> (r: bool)
    ensures
        r == (a@ == b@),
{
    if a.len() != b.len() {
        return false;
    }
    let mut i: usize = 0;
    while i < a.len()
        invariant
            i <= a@.len(),
            a@.len() == b@.len(),
            forall|k: int| 0 <= k < i ==> a@[k] == b@[k],
        decreases a@.len() - i,
    {
        if a[i] != b[i] {
            return false;
        }
        i += 1;
    }
    assert(a@ =~= b@);
    true
}

fn copy_ids(a: &Vec<u32>) -> (r: Vec<u32>)
    ensures
        r@ == a@,
{
    let mut r: Vec<u32> = Vec::new();
    let mut i: usize = 0;
    while i < a.len()
        invariant
            i <= a@.len(),
            r@ == a@.take(i as int),
        decreases a@.len() - i,
    {
        r.push(a[i]);
        assert(a@.take(i + 1) =~= a@.take(i as int).push(a@[i as int]));
        i += 1;
    }
    assert(a@.take(a@.len() as int) =~= a@);
    r
}

impl Comparable for WallJoinLists {
    fn same(&self, other: &Self) -> (r: bool) {
        let a = &self.lists;
        let b = &other.lists;
        if a.len() != b.len() {
            assert(self@.len() != other@.len());
            return false;
        }
        let mut i: usize = 0;
        while i < a.len()
            invariant
                i <= a@.len(),
                a@.len() == b@.len(),
                self@ == join_views(a@),
                other@ == join_views(b@),
                forall|k: int| 0 <= k < i ==> #[trigger] join_views(a@)[k] == join_views(b@)[k],
            decreases a@.len() - i,
        {
            if a[i].0 != b[i].0 || !same_ids(&a[i].1, &b[i].1) {
                assert(join_views(a@)[i as int] != join_views(b@)[i as int]);
                assert(self@[i as int] != other@[i as int]);
                return false;
            }
            i += 1;
        }
        assert(join_views(a@) =~= join_views(b@));
        true
    }

    fn duplicate(&self) -> (r: Self) {
        let a = &self.lists;
        let mut out: Vec<(u32, Vec<u32>)> = Vec::new();
        let mut i: usize = 0;
        while i < a.len()
            invariant
                i <= a@.len(),
                out@.len() == i,
                join_views(out@) == join_views(a@).take(i as int),
            decreases a@.len() - i,
        {
            let ids = copy_ids(&a[i].1);
            let ghost before = out@;
            let ghost e = (a@[i as int].0, ids);
            out.push((a[i].0, ids));
            assert(out@ == before.push(e));
            assert(join_views(out@)[i as int] == join_views(a@)[i as int]);
            assert(join_views(out@) =~= join_views(a@).take(i + 1));
            i += 1;
        }
        assert(join_views(a@).take(a@.len() as int) =~= join_views(a@));
        WallJoinLists { lists: out }
    }
}

/// The join lists of the `k`-th header's wall, when the header names one
/// of `read`.
pub open spec fn join_lists_entry(
    b: Seq<u8>,
    h: Seq<u8>,
    count_at: int,
    walls: Set<u32>,
    read: Set<u32>,
    k: int,
) -> Option<(u32, Seq<(u32, Seq<u32>)>)> {
    let hits = iter_hits_from(b, h, 0);
    match header_element(b, hits, k, h.len() as int, read) {
        None => None,
        Some(id) => match element_data(b, hits, k, h.len() as int, WALL_JOIN_WINDOW as int) {
            None => None,
            Some(d) => Some((id, spec_wall_join_lists(d, count_at, walls))),
        },
    }
}

/// [`join_lists_entry`] for a fixed buffer.
pub open spec fn join_lists_fn(
    b: Seq<u8>,
    h: Seq<u8>,
    count_at: int,
    walls: Set<u32>,
    read: Set<u32>,
) -> spec_fn(int) -> Option<(u32, Seq<(u32, Seq<u32>)>)> {
    |k: int| join_lists_entry(b, h, count_at, walls, read, k)
}

/// The `(wall, join lists)` one buffer holds, in header order.
pub open spec fn buffer_join_lists(
    b: Seq<u8>,
    h: Seq<u8>,
    count_at: int,
    walls: Set<u32>,
    read: Set<u32>,
) -> Seq<(u32, Seq<(u32, Seq<u32>)>)> {
    keep_some(indices(iter_hits_from(b, h, 0).len()), join_lists_fn(b, h, count_at, walls, read))
}

/// The `(wall, join lists)` every stream holds, in stream order.
pub open spec fn all_join_lists(
    parts: Seq<(Seq<char>, Seq<u8>)>,
    h: Seq<u8>,
    count_at: int,
    walls: Set<u32>,
    read: Set<u32>,
) -> Seq<(u32, Seq<(u32, Seq<u32>)>)>
    decreases parts.len(),
{
    if parts.len() == 0 {
        Seq::empty()
    } else {
        all_join_lists(parts.drop_last(), h, count_at, walls, read) + buffer_join_lists(
            parts.last().1,
            h,
            count_at,
            walls,
            read,
        )
    }
}

fn find_join_lists(
    buf: &[u8],
    header: &[u8],
    count_at: usize,
    walls: &BTreeSet<u32>,
    read: &BTreeSet<u32>,
) -> (r: Vec<(u32, WallJoinLists)>)
    requires
        header@.len() > 0,
    ensures
        id_values(r@) == buffer_join_lists(buf@, header@, count_at as int, walls@, read@),
{
    let hits = find_iter_all(buf, header);
    let ghost ps = positions(hits@);
    let ghost f = join_lists_fn(buf@, header@, count_at as int, walls@, read@);
    let mut out: Vec<(u32, WallJoinLists)> = Vec::new();
    let mut k: usize = 0;
    assert(indices(0) =~= Seq::<int>::empty());
    while k < hits.len()
        invariant
            k <= hits@.len(),
            ps == positions(hits@),
            ps == iter_hits_from(buf@, header@, 0),
            forall|j: int| 0 <= j < hits@.len() ==> #[trigger] hits@[j] + header@.len() <= buf@.len(),
            f == join_lists_fn(buf@, header@, count_at as int, walls@, read@),
            id_values(out@) == keep_some(indices(k as nat), f),
        decreases hits@.len() - k,
    {
        let ghost before = out@;
        proof {
            assert(indices((k + 1) as nat) =~= indices(k as nat).push(k as int));
            lemma_keep_some_push(indices(k as nat), k as int, f);
        }
        match element_window(buf, &hits, k, header.len(), WALL_JOIN_WINDOW, read) {
            Some((id, start, end)) => {
                let data = &buf[start..end];
                let lists = WallJoinLists { lists: wall_join_lists(data, count_at, walls) };
                proof {
                    assert(data@ == buf@.subrange(start as int, end as int));
                    assert(f(k as int) == Some((id, lists@)));
                }
                out.push((id, lists));
                assert(id_values(out@) =~= id_values(before).push((id, lists@)));
            },
            None => {
                assert(f(k as int) is None);
            },
        }
        k += 1;
    }
    out
}

/// The tag of list `i` of the join lists the collapse keeps for `id`.
pub open spec fn kept_list_tag(e: Seq<(u32, Seq<(u32, Seq<u32>)>)>, id: u32, i: int) -> Option<u32> {
    match collapsed(e, id) {
        Some(ls) => if 0 <= i < ls.len() {
            Some(ls[i].0)
        } else {
            None
        },
        None => None,
    }
}

/// Whether some kept join list carries `tag`.
pub open spec fn kept_tag(e: Seq<(u32, Seq<(u32, Seq<u32>)>)>, tag: u32) -> bool {
    exists|id: u32, i: int| #[trigger] kept_list_tag(e, id, i) == Some(tag)
}

/// The one tag every kept join list carries, if there is exactly one.
pub open spec fn sole_tag(e: Seq<(u32, Seq<(u32, Seq<u32>)>)>) -> Option<u32> {
    if exists|t: u32| kept_tag(e, t) && forall|u: u32| #[trigger] kept_tag(e, u) ==> u == t {
        Some(choose|t: u32| kept_tag(e, t) && forall|u: u32| #[trigger] kept_tag(e, u) ==> u == t)
    } else {
        None
    }
}

/// The walls other than `id` that `id`'s lists with `tag` name.
pub open spec fn partners(ls: Seq<(u32, Seq<u32>)>, tag: u32, id: u32) -> Set<u32> {
    Set::new(
        |w: u32|
            w != id && exists|i: int| 0 <= i < ls.len() && ls[i].0 == tag && #[trigger] ls[i].1.contains(w),
    )
}

fn partner_set(ls: &WallJoinLists, tag: u32, id: u32) -> (r: BTreeSet<u32>)
    ensures
        r@ == partners(ls@, tag, id),
{
    let ghost v = ls@;
    let mut out: BTreeSet<u32> = BTreeSet::new();
    let mut j: usize = 0;
    while j < ls.lists.len()
        invariant
            j <= ls.lists@.len(),
            v == ls@,
            v.len() == ls.lists@.len(),
            out@ == Set::new(
                |w: u32|
                    w != id && exists|i: int| 0 <= i < j && v[i].0 == tag && #[trigger] v[i].1.contains(w),
            ),
        decreases ls.lists@.len() - j,
    {
        let ghost before = out@;
        let list = &ls.lists[j];
        assert(v[j as int] == (list.0, list.1@));
        if list.0 == tag {
            let mut q: usize = 0;
            while q < list.1.len()
                invariant
                    q <= list.1@.len(),
                    out@ == before.union(
                        Set::new(|w: u32| w != id && #[trigger] list.1@.take(q as int).contains(w)),
                    ),
                decreases list.1@.len() - q,
            {
                let w = list.1[q];
                let ghost mid = out@;
                if w != id {
                    out.insert(w);
                }
                proof {
                    assert(list.1@.take(q + 1) =~= list.1@.take(q as int).push(w));
                    assert forall|x: u32| out@.contains(x) <==> before.union(
                        Set::new(|y: u32| y != id && #[trigger] list.1@.take(q + 1).contains(y)),
                    ).contains(x) by {
                        crate::bytes::lemma_push_contains(list.1@.take(q as int), w, x);
                    }
                    assert(out@ =~= before.union(
                        Set::new(|y: u32| y != id && #[trigger] list.1@.take(q + 1).contains(y)),
                    ));
                }
                q += 1;
            }
            assert(list.1@.take(list.1@.len() as int) =~= list.1@);
        }
        proof {
            assert forall|x: u32| out@.contains(x) <==> (x != id && exists|i: int|
                0 <= i < j + 1 && v[i].0 == tag && #[trigger] v[i].1.contains(x)) by {
                if out@.contains(x) && !before.contains(x) {
                    assert(list.0 == tag && list.1@.contains(x) && x != id);
                    assert(v[j as int].1.contains(x));
                }
                if x != id && exists|i: int| 0 <= i < j + 1 && v[i].0 == tag && #[trigger] v[i].1.contains(x) {
                    let i = choose|i: int| 0 <= i < j + 1 && v[i].0 == tag && #[trigger] v[i].1.contains(x);
                    if i < j {
                        assert(before.contains(x));
                    }
                }
            }
            assert(out@ =~= Set::new(
                |w: u32|
                    w != id && exists|i: int| 0 <= i < j + 1 && v[i].0 == tag && #[trigger] v[i].1.contains(w),
            ));
        }
        j += 1;
    }
    assert(out@ =~= partners(v, tag, id));
    out
}

/// The tags the kept lists of the first `a` entries, and the first `k`
/// lists of entry `a`, carry.
pub open spec fn tag_seen(e: Seq<(u32, Seq<(u32, Seq<u32>)>)>, a: int, k: int, t: u32) -> bool {
    (exists|b: int, i: int| 0 <= b < a && #[trigger] kept_list_tag(e, e[b].0, i) == Some(t)) || (
    exists|i: int| 0 <= i < k && #[trigger] kept_list_tag(e, e[a].0, i) == Some(t))
}

/// The one tag the kept join lists carry: `Some` when they carry exactly
/// one.
fn find_sole_tag(entries: &Vec<(u32, WallJoinLists)>, m: &BTreeMap<u32, WallJoinLists>) -> (r: Option<u32>)
    requires
        is_collapse_of(m@, id_values(entries@)),
    ensures
        r == sole_tag(id_values(entries@)),
{
    let ghost e = id_values(entries@);
    let mut first: Option<u32> = None;
    let mut multiple = false;
    let mut a: usize = 0;
    while a < entries.len()
        invariant
            a <= entries@.len(),
            e == id_values(entries@),
            is_collapse_of(m@, e),
            first is None ==> forall|t: u32| !#[trigger] tag_seen(e, a as int, 0, t),
            first matches Some(t0) ==> tag_seen(e, a as int, 0, t0),
            !multiple ==> forall|t: u32| #[trigger] tag_seen(e, a as int, 0, t) ==> first == Some(t),
            multiple ==> exists|t: u32, u: u32| t != u && tag_seen(e, a as int, 0, t) && tag_seen(e, a as int, 0, u),
        decreases entries@.len() - a,
    {
        let id = entries[a].0;
        assert(e[a as int].0 == id);
        match m.get(&id) {
            Some(ls) => {
                let mut k: usize = 0;
                while k < ls.lists.len()
                    invariant
                        k <= ls.lists@.len(),
                        a < entries@.len(),
                        e == id_values(entries@),
                        e[a as int].0 == id,
                        is_collapse_of(m@, e),
                        m@.contains_key(id),
                        *ls == m@[id],
                        first is None ==> forall|t: u32| !#[trigger] tag_seen(e, a as int, k as int, t),
                        first matches Some(t0) ==> tag_seen(e, a as int, k as int, t0),
                        !multiple ==> forall|t: u32| #[trigger] tag_seen(e, a as int, k as int, t) ==> first == Some(t),
                        multiple ==> exists|t: u32, u: u32|
                            t != u && tag_seen(e, a as int, k as int, t) && tag_seen(e, a as int, k as int, u),
                    decreases ls.lists@.len() - k,
                {
                    let t = ls.lists[k].0;
                    proof {
                        assert(ls@[k as int].0 == t);
                        assert(kept_list_tag(e, e[a as int].0, k as int) == Some(t));
                        assert forall|x: u32| #[trigger] tag_seen(e, a as int, k + 1, x) <==> (tag_seen(
                            e,
                            a as int,
                            k as int,
                            x,
                        ) || x == t) by {
                            if tag_seen(e, a as int, k + 1, x) && !tag_seen(e, a as int, k as int, x) {
                                let i = choose|i: int| 0 <= i < k + 1 && #[trigger] kept_list_tag(e, e[a as int].0, i) == Some(x);
                                assert(i == k);
                            }
                            if x == t {
                                assert(kept_list_tag(e, e[a as int].0, k as int) == Some(x));
                            }
                        }
                    }
                    let ghost was_multiple = multiple;
                    let ghost was_first = first;
                    match first {
                        None => {
                            first = Some(t);
                        },
                        Some(t0) => {
                            if t0 != t {
                                multiple = true;
                            }
                        },
                    }
                    proof {
                        if was_multiple {
                            let (x, y) = choose|x: u32, y: u32|
                                x != y && tag_seen(e, a as int, k as int, x) && tag_seen(e, a as int, k as int, y);
                            assert(tag_seen(e, a as int, k + 1, x) && tag_seen(e, a as int, k + 1, y));
                        } else if multiple {
                            assert(tag_seen(e, a as int, k + 1, was_first->0) && tag_seen(e, a as int, k + 1, t));
                        }
                    }
                    k += 1;
                }
                proof {
                    assert forall|x: u32| #[trigger] tag_seen(e, a + 1, 0, x) <==> tag_seen(
                        e,
                        a as int,
                        ls.lists@.len() as int,
                        x,
                    ) by {
                        if tag_seen(e, a + 1, 0, x) {
                            let (b, i) = choose|b: int, i: int| 0 <= b < a + 1 && #[trigger] kept_list_tag(e, e[b].0, i) == Some(x);
                            if b == a {
                                assert(0 <= i < ls@.len());
                            }
                        }
                        if tag_seen(e, a as int, ls.lists@.len() as int, x) {
                            if exists|i: int| 0 <= i < ls.lists@.len() && #[trigger] kept_list_tag(e, e[a as int].0, i) == Some(x) {
                                let i = choose|i: int| 0 <= i < ls.lists@.len() && #[trigger] kept_list_tag(e, e[a as int].0, i) == Some(x);
                                assert(kept_list_tag(e, e[a as int].0, i) == Some(x));
                            }
                        }
                    }
                    if multiple {
                        let (x, y) = choose|x: u32, y: u32|
                            x != y && tag_seen(e, a as int, ls.lists@.len() as int, x) && tag_seen(
                                e,
                                a as int,
                                ls.lists@.len() as int,
                                y,
                            );
                        assert(tag_seen(e, a + 1, 0, x) && tag_seen(e, a + 1, 0, y));
                    }
                }
            },
            None => {
                proof {
                    assert forall|x: u32| #[trigger] tag_seen(e, a + 1, 0, x) <==> tag_seen(e, a as int, 0, x) by {
                        if tag_seen(e, a + 1, 0, x) {
                            let (b, i) = choose|b: int, i: int| 0 <= b < a + 1 && #[trigger] kept_list_tag(e, e[b].0, i) == Some(x);
                            if b == a {
                                assert(collapsed(e, id) is None);
                            }
                        }
                    }
                    if multiple {
                        let (x, y) = choose|x: u32, y: u32|
                            x != y && tag_seen(e, a as int, 0, x) && tag_seen(e, a as int, 0, y);
                        assert(tag_seen(e, a + 1, 0, x) && tag_seen(e, a + 1, 0, y));
                    }
                }
            },
        }
        a += 1;
    }
    proof {
        assert forall|t: u32| #[trigger] kept_tag(e, t) <==> tag_seen(e, e.len() as int, 0, t) by {
            if kept_tag(e, t) {
                let (id, i) = choose|id: u32, i: int| #[trigger] kept_list_tag(e, id, i) == Some(t);
                assert(collapsed(e, id) is Some);
                assert(names_id(e, id));
                let b = choose|b: int| 0 <= b < e.len() && #[trigger] e[b].0 == id;
                assert(kept_list_tag(e, e[b].0, i) == Some(t));
            }
            if tag_seen(e, e.len() as int, 0, t) {
                let (b, i) = choose|b: int, i: int| 0 <= b < e.len() && #[trigger] kept_list_tag(e, e[b].0, i) == Some(t);
                assert(kept_list_tag(e, e[b].0, i) == Some(t));
            }
        }
    }
    if multiple {
        proof {
            let (t, u) = choose|t: u32, u: u32| t != u && tag_seen(e, e.len() as int, 0, t) && tag_seen(e, e.len() as int, 0, u);
            assert(kept_tag(e, t) && kept_tag(e, u));
            if exists|x: u32| kept_tag(e, x) && forall|y: u32| #[trigger] kept_tag(e, y) ==> y == x {
                let x = choose|x: u32| kept_tag(e, x) && forall|y: u32| #[trigger] kept_tag(e, y) ==> y == x;
                assert(t == x && u == x);
            }
        }
        return None;
    }
    proof {
        match first {
            None => {
                if exists|x: u32| kept_tag(e, x) && forall|y: u32| #[trigger] kept_tag(e, y) ==> y == x {
                    let x = choose|x: u32| kept_tag(e, x) && forall|y: u32| #[trigger] kept_tag(e, y) ==> y == x;
                    assert(tag_seen(e, e.len() as int, 0, x));
                }
            },
            Some(t0) => {
                assert(kept_tag(e, t0));
                assert(forall|y: u32| #[trigger] kept_tag(e, y) ==> y == t0);
                let x = choose|x: u32| kept_tag(e, x) && forall|y: u32| #[trigger] kept_tag(e, y) ==> y == x;
                assert(x == t0);
            },
        }
    }
    first
}

/// Each wall's join partners, by ElementId: the walls its kept join lists
/// with the one tag they all carry name, other than itself. Empty unless
/// exactly one tag is carried.
pub open spec fn is_partner_map(m: Map<u32, BTreeSet<u32>>, e: Seq<(u32, Seq<(u32, Seq<u32>)>)>) -> bool {
    match sole_tag(e) {
        None => m.is_empty(),
        Some(tag) => forall|id: u32|
            #[trigger] m.contains_key(id) == collapsed(e, id) is Some && (m.contains_key(id) ==> m[id]@
                == partners(collapsed(e, id)->0, tag, id)),
    }
}

/// Every wall's join partners, by ElementId, from the walls' join lists in
/// every partition: the join lists of each wall in `read`, read from its
/// element data after an element-data `header`, naming walls in `walls`.
/// A wall whose copies disagree is dropped. The lists with the one tag
/// every kept list carries name the partners; with no tag, or with more
/// than one, nothing is known. Empty without a header or for a release the
/// join layout is not measured on.
pub fn scan_wall_join_partners(
    partitions: &[InflatedPartition],
    header: Option<[u8; 10]>,
    revit_version: u32,
    walls: &BTreeSet<u32>,
    read: &BTreeSet<u32>,
) -> (r: BTreeMap<u32, BTreeSet<u32>>)
    ensures
        header is None || (revit_version != 2024 && revit_version != 2025) ==> r@.is_empty(),
        header matches Some(h) ==> (revit_version == 2024 ==> is_partner_map(
            r@,
            all_join_lists(partition_views(partitions@), h@, 12, walls@, read@),
        )) && (revit_version == 2025 ==> is_partner_map(
            r@,
            all_join_lists(partition_views(partitions@), h@, 16, walls@, read@),
        )),
{
    let (hdr, count_at) = match (header, wall_join_count_offset(revit_version)) {
        (Some(h), Some(c)) => (h, c),
        _ => {
            let empty = BTreeMap::new();
            assert(empty@ =~= Map::<u32, BTreeSet<u32>>::empty());
            return empty;
        },
    };
    let ghost parts = partition_views(partitions@);
    let mut entries: Vec<(u32, WallJoinLists)> = Vec::new();
    let mut i: usize = 0;
    while i < partitions.len()
        invariant
            i <= partitions@.len(),
            parts == partition_views(partitions@),
            id_values(entries@) == all_join_lists(parts.take(i as int), hdr@, count_at as int, walls@, read@),
        decreases partitions@.len() - i,
    {
        let part = &partitions[i];
        let mut found = find_join_lists(part.bytes.as_slice(), &hdr, count_at, walls, read);
        let ghost before = entries@;
        let ghost got = found@;
        entries.append(&mut found);
        assert(id_values(entries@) =~= id_values(before) + id_values(got));
        proof {
            assert(parts.take(i + 1).drop_last() =~= parts.take(i as int));
            assert(parts.take(i + 1).last() == parts[i as int]);
            assert(parts[i as int] == (part.stream@, part.bytes@));
        }
        i += 1;
    }
    assert(parts.take(parts.len() as int) =~= parts);
    let ghost e = id_values(entries@);
    let m = collapse_values(&entries);
    let tag = match find_sole_tag(&entries, &m) {
        Some(t) => t,
        None => {
            let empty = BTreeMap::new();
            assert(empty@ =~= Map::<u32, BTreeSet<u32>>::empty());
            return empty;
        },
    };
    let mut out: BTreeMap<u32, BTreeSet<u32>> = BTreeMap::new();
    let mut a: usize = 0;
    while a < entries.len()
        invariant
            a <= entries@.len(),
            e == id_values(entries@),
            is_collapse_of(m@, e),
            forall|id: u32|
                #[trigger] out@.contains_key(id) == (collapsed(e, id) is Some && exists|b: int|
                    0 <= b < a && #[trigger] e[b].0 == id),
            forall|id: u32|
                #[trigger] out@.contains_key(id) ==> out@[id]@ == partners(collapsed(e, id)->0, tag, id),
        decreases entries@.len() - a,
    {
        let id = entries[a].0;
        assert(e[a as int].0 == id);
        let ghost before = out@;
        match m.get(&id) {
            Some(ls) => {
                let set = partner_set(ls, tag, id);
                out.insert(id, set);
            },
            None => {},
        }
        proof {
            assert forall|x: u32| #[trigger] out@.contains_key(x) == (collapsed(e, x) is Some && exists|b: int|
                0 <= b < a + 1 && #[trigger] e[b].0 == x) by {
                if collapsed(e, x) is Some && exists|b: int| 0 <= b < a + 1 && #[trigger] e[b].0 == x {
                    let b = choose|b: int| 0 <= b < a + 1 && #[trigger] e[b].0 == x;
                    if b < a {
                        assert(before.contains_key(x));
                    }
                }
                if before.contains_key(x) {
                    let b = choose|b: int| 0 <= b < a && #[trigger] e[b].0 == x;
                    assert(0 <= b < a + 1 && e[b].0 == x);
                }
            }
        }
        a += 1;
    }
    proof {
        assert forall|id: u32| #[trigger] out@.contains_key(id) == collapsed(e, id) is Some by {
            if collapsed(e, id) is Some {
                assert(names_id(e, id));
                let b = choose|b: int| 0 <= b < e.len() && #[trigger] e[b].0 == id;
                assert(0 <= b < e.len() && e[b].0 == id);
            }
        }
    }
    out
}

/// A wall is never its own join partner.
pub proof fn no_wall_partners_itself(m: Map<u32, BTreeSet<u32>>, e: Seq<(u32, Seq<(u32, Seq<u32>)>)>, id: u32)
    requires
        is_partner_map(m, e),
        m.contains_key(id),
    ensures
        !m[id]@.contains(id),
{
    match sole_tag(e) {
        Some(tag) => {
            assert(m[id]@ == partners(collapsed(e, id)->0, tag, id));
        },
        None => {
            assert(m.dom().contains(id));
        },
    }
}

/// Every ElementId a join list names is one of the walls it was read
/// against.
pub proof fn join_lists_name_walls(d: Seq<u8>, count_at: int, walls: Set<u32>, k: int, i: int)
    requires
        0 <= k < spec_wall_join_lists(d, count_at, walls).len(),
        0 <= i < spec_wall_join_lists(d, count_at, walls)[k].1.len(),
    ensures
        walls.contains(spec_wall_join_lists(d, count_at, walls)[k].1[i]),
{
    let hits = iter_hits_from(d, join_word(), 0);
    let f = join_list_fn(d, count_at, walls);
    crate::bytes::lemma_keep_some_member(hits, f, k);
    let j = choose|j: int| 0 <= j < hits.len() && f(#[trigger] hits[j]) == Some(keep_some(hits, f)[k]);
    let at = hits[j];
    assert(join_list_at(d, count_at, walls, at) is Some);
    assert(join_entry(d, at, count_at, i, walls) is Some);
}

/// The tag of a release's layer frame, as a spec.
pub open spec fn spec_layer_frame_tag(revit_version: u32) -> Option<[u8; 2]> {
    if revit_version == 2024 {
        Some([0xa6u8, 0x10u8])
    } else if revit_version == 2025 {
        Some([0x0eu8, 0x11u8])
    } else {
        None
    }
}

/// One layer of a host type's compound structure. The width is kept as
/// the raw IEEE-754 word (feet).
#[derive(Debug, Clone, Copy, PartialEq, Eq, Structural)]
pub struct CompoundLayer {
    pub width_bits: u64,
    /// The layer's material, when it names one.
    pub material: Option<u32>,
    /// Revit's layer function: 0 to 5, 100 (membrane) or 200.
    pub function: u32,
}

/// A layer as the comparisons see it: its width by value (both zeros
/// alike), its material and its function.
pub open spec fn layer_value(l: CompoundLayer) -> (int, Option<u32>, u32) {
    (f64_bits_key(l.width_bits), l.material, l.function)
}

/// The IEEE-754 word of 10.0.
pub open spec fn ten_feet() -> u64 {
    0x4024_0000_0000_0000
}

/// The IEEE-754 word of 0.001.
pub open spec fn thousandth_foot() -> u64 {
    0x3f50_624d_d2f1_a9fc
}

/// A wall's data whose first orientation anchor (`ff ff ff ff 01 00 00 00`)
/// is followed by a location line of 0 to 5 (centreline, core centreline,
/// either finish face, either core face), a word of 0 to 2 and a flag of 0
/// or 1 gives exactly that orientation, the flag set meaning flipped.
pub proof fn every_location_line_is_read(data: Seq<u8>, a: int)
    requires
        0 <= a,
        a + 20 <= data.len(),
        data.subrange(a, a + 8) == seq![0xffu8, 0xff, 0xff, 0xff, 0x01, 0x00, 0x00, 0x00],
        forall|j: int| 0 <= j < a ==> #[trigger] data.subrange(j, j + 8) != seq![0xffu8, 0xff, 0xff, 0xff, 0x01, 0x00, 0x00, 0x00],
        le_u32(data, a + 8) <= 5,
        le_u32(data, a + 12) <= 2,
        le_u32(data, a + 16) <= 1,
    ensures
        spec_wall_orientation(data) == Some(
            WallOrientation {
                location_line: le_u32(data, a + 8) as u32,
                word: le_u32(data, a + 12) as u32,
                flip: le_u32(data, a + 16) == 1,
            },
        ),
{
    let n = flip_anchor();
    assert(n =~= seq![0xffu8, 0xff, 0xff, 0xff, 0x01, 0x00, 0x00, 0x00]);
    assert forall|j: int| 0 <= j < a implies !#[trigger] occurs_at(data, n, j) by {
        assert(data.subrange(j, j + 8) != n);
    }
    lemma_next_occurrence_found(data, n, 0, a);
}

/// The layer record at `at`: `f64 width · u64 material · u64 deck · u32
/// function`. A width that is finite, below 10 ft and at least 0.001 ft
/// (or zero for a membrane), a material that is `u64::MAX` or one of
/// `materials`, a deck that is `u64::MAX` or a declared element, and a
/// function of 0 to 5, 100 or 200.
#[verifier::opaque]
pub open spec fn layer_at(b: Seq<u8>, at: int, materials: Set<u32>, declared: Set<u32>) -> Option<CompoundLayer> {
    let w = le_u64(b, at) as u64;
    let material = le_u64(b, at + 8);
    let deck = le_u64(b, at + 16);
    let function = le_u32(b, at + 24);
    let width_ok = f64_bits_finite(w) && f64_bits_key(w) < f64_bits_key(ten_feet()) && (f64_bits_key(w)
        >= f64_bits_key(thousandth_foot()) || (function == 100 && f64_bits_key(w) == 0));
    let material_ok = material == 0xffff_ffff_ffff_ffff || (material <= 0xffff_ffff && materials.contains(
        material as u32,
    ));
    let deck_ok = deck == 0xffff_ffff_ffff_ffff || (deck <= 0xffff_ffff && declared.contains(deck as u32));
    let function_ok = (0 <= function <= 5) || function == 100 || function == 200;
    if 0 <= at && at + 28 <= b.len() && width_ok && material_ok && deck_ok && function_ok {
        Some(
            CompoundLayer {
                width_bits: w,
                material: if material == 0xffff_ffff_ffff_ffff { None } else { Some(material as u32) },
                function: function as u32,
            },
        )
    } else {
        None
    }
}

/// A layer record with no material and no deck and a finite width of at
/// least 0.001 ft and below 10 ft, whose function is one of Revit's: 0
/// (structure), 1 (substrate), 2 (thermal / air), 3 (finish 1), 4
/// (finish 2), 5, 100 (membrane) or 200 (structural deck).
pub open spec fn documented_layer_record(b: Seq<u8>, at: int) -> bool {
    let w = le_u64(b, at) as u64;
    let f = le_u32(b, at + 24);
    &&& 0 <= at
    &&& at + 28 <= b.len()
    &&& f64_bits_finite(w)
    &&& f64_bits_key(thousandth_foot()) <= f64_bits_key(w) < f64_bits_key(ten_feet())
    &&& le_u64(b, at + 8) == 0xffff_ffff_ffff_ffff
    &&& le_u64(b, at + 16) == 0xffff_ffff_ffff_ffff
    &&& (f == 0 || f == 1 || f == 2 || f == 3 || f == 4 || f == 5 || f == 100 || f == 200)
}

/// Every layer function is read: a record as [`documented_layer_record`]
/// describes is a layer with that width and function and no material,
/// whatever the materials and declared elements.
pub proof fn every_layer_function_is_read(b: Seq<u8>, at: int, materials: Set<u32>, declared: Set<u32>)
    requires
        documented_layer_record(b, at),
    ensures
        layer_at(b, at, materials, declared) == Some(
            CompoundLayer { width_bits: le_u64(b, at) as u64, material: None, function: le_u32(b, at + 24) as u32 },
        ),
{
    reveal(layer_at);
}

/// A count of one followed by such a record is a one-layer list.
pub proof fn a_lone_layer_of_any_function_is_a_list(b: Seq<u8>, count_at: int, materials: Set<u32>, declared: Set<u32>)
    requires
        0 <= count_at,
        le_u32(b, count_at) == 1,
        documented_layer_record(b, count_at + 4),
    ensures
        spec_layers_at(b, count_at, materials, declared) == Some(
            seq![CompoundLayer { width_bits: le_u64(b, count_at + 4) as u64, material: None, function: le_u32(b, count_at + 28) as u32 }],
        ),
{
    every_layer_function_is_read(b, count_at + 4, materials, declared);
    assert(count_at + 4 + LAYER_RECORD_LEN * 0 == count_at + 4);
    assert(spec_layers_at(b, count_at, materials, declared)->0 =~= seq![
        CompoundLayer { width_bits: le_u64(b, count_at + 4) as u64, material: None, function: le_u32(b, count_at + 28) as u32 },
    ]);
}

/// What a read layer holds: the record's width and function, no material
/// when the record's material is `u64::MAX`, else that material, one of
/// `materials`; and only a record whose function is one of Revit's (0 to
/// 5, 100, 200), whose deck is `u64::MAX` or declared, and whose width is
/// finite, below 10 ft and at least 0.001 ft (or zero for a membrane) is
/// read at all.
pub proof fn read_layers_keep_their_record(b: Seq<u8>, at: int, materials: Set<u32>, declared: Set<u32>)
    requires
        layer_at(b, at, materials, declared) is Some,
    ensures
        ({
            let l = layer_at(b, at, materials, declared)->0;
            let w = le_u64(b, at) as u64;
            let m = le_u64(b, at + 8);
            let d = le_u64(b, at + 16);
            let f = le_u32(b, at + 24);
            &&& 0 <= at && at + 28 <= b.len()
            &&& l.width_bits == w
            &&& l.function == f
            &&& (f == 0 || f == 1 || f == 2 || f == 3 || f == 4 || f == 5 || f == 100 || f == 200)
            &&& f64_bits_finite(w)
            &&& f64_bits_key(w) < f64_bits_key(ten_feet())
            &&& (f64_bits_key(w) >= f64_bits_key(thousandth_foot()) || (f == 100 && f64_bits_key(w) == 0))
            &&& (m == 0xffff_ffff_ffff_ffff ==> l.material is None)
            &&& (m != 0xffff_ffff_ffff_ffff ==> m <= 0xffff_ffff && l.material == Some(m as u32) && materials.contains(m as u32))
            &&& (d == 0xffff_ffff_ffff_ffff || (d <= 0xffff_ffff && declared.contains(d as u32)))
        }),
{
    reveal(layer_at);
}

/// A record is read as a layer whenever each of its parts is one a layer
/// can have: a finite width below 10 ft and at least 0.001 ft (or zero
/// with the membrane function 100), a material of `u64::MAX` (none) or one
/// of `materials`, a deck of `u64::MAX` or a declared element, and one of
/// Revit's functions 0 to 5, 100 and 200.
pub proof fn layers_with_known_parts_are_read(b: Seq<u8>, at: int, materials: Set<u32>, declared: Set<u32>)
    requires
        0 <= at,
        at + 28 <= b.len(),
        f64_bits_finite(le_u64(b, at) as u64),
        f64_bits_key(le_u64(b, at) as u64) < f64_bits_key(ten_feet()),
        f64_bits_key(le_u64(b, at) as u64) >= f64_bits_key(thousandth_foot()) || (le_u32(b, at + 24) == 100
            && f64_bits_key(le_u64(b, at) as u64) == 0),
        le_u64(b, at + 8) == 0xffff_ffff_ffff_ffff || (le_u64(b, at + 8) <= 0xffff_ffff && materials.contains(
            le_u64(b, at + 8) as u32,
        )),
        le_u64(b, at + 16) == 0xffff_ffff_ffff_ffff || (le_u64(b, at + 16) <= 0xffff_ffff && declared.contains(
            le_u64(b, at + 16) as u32,
        )),
        ({
            let f = le_u32(b, at + 24);
            f == 0 || f == 1 || f == 2 || f == 3 || f == 4 || f == 5 || f == 100 || f == 200
        }),
    ensures
        layer_at(b, at, materials, declared) == Some(
            CompoundLayer {
                width_bits: le_u64(b, at) as u64,
                material: if le_u64(b, at + 8) == 0xffff_ffff_ffff_ffff {
                    None
                } else {
                    Some(le_u64(b, at + 8) as u32)
                },
                function: le_u32(b, at + 24) as u32,
            },
        ),
{
    reveal(layer_at);
}

/// A wall's orientation comes from the words after the first orientation
/// anchor (`ff ff ff ff 01 00 00 00`) in its data: a location line of at
/// most 5, a word of at most 2 and a flag of 0 or 1, set when flipped.
pub proof fn orientations_come_from_the_first_anchor(data: Seq<u8>)
    requires
        spec_wall_orientation(data) is Some,
    ensures
        ({
            let o = spec_wall_orientation(data)->0;
            next_occurrence(data, seq![0xffu8, 0xff, 0xff, 0xff, 0x01, 0x00, 0x00, 0x00], 0) matches Some(a) && {
                &&& 0 <= a && a + 20 <= data.len()
                &&& o.location_line == le_u32(data, a + 8) && le_u32(data, a + 8) <= 5
                &&& o.word == le_u32(data, a + 12) && le_u32(data, a + 12) <= 2
                &&& le_u32(data, a + 16) <= 1 && o.flip == (le_u32(data, a + 16) == 1)
            }
        }),
{
    assert(flip_anchor() =~= seq![0xffu8, 0xff, 0xff, 0xff, 0x01, 0x00, 0x00, 0x00]);
    lemma_next_occurrence_bounds(data, flip_anchor(), 0);
}

/// The layers whose `u32` count of 1 to [`MAX_LAYERS`] sits at
/// `count_at`, the records following it, when every record is a layer.
pub open spec fn spec_layers_at(b: Seq<u8>, count_at: int, materials: Set<u32>, declared: Set<u32>) -> Option<
    Seq<CompoundLayer>,
> {
    let count = le_u32(b, count_at);
    if 0 <= count_at && count_at + 4 <= b.len() && 1 <= count <= MAX_LAYERS && forall|i: int|
        0 <= i < count ==> #[trigger] layer_at(b, count_at + 4 + LAYER_RECORD_LEN * i, materials, declared)
            is Some {
        Some(
            Seq::new(
                count as nat,
                |i: int| layer_at(b, count_at + 4 + LAYER_RECORD_LEN * i, materials, declared)->0,
            ),
        )
    } else {
        None
    }
}

fn read_layer(buf: &[u8], at: usize, materials: &BTreeSet<u32>, declared: &BTreeSet<u32>) -> (r: Option<CompoundLayer>)
    ensures
        r == layer_at(buf@, at as int, materials@, declared@),
{
    reveal(layer_at);
    if at > buf.len() || buf.len() - at < 28 {
        return None;
    }
    let w = read_u64(buf, at).unwrap();
    let material = read_u64(buf, at + 8).unwrap();
    let deck = read_u64(buf, at + 16).unwrap();
    let function = read_u32(buf, at + 24).unwrap();
    let key = f64_key(w);
    let width_ok = f64_finite(w) && key < f64_key(0x4024_0000_0000_0000) && (key >= f64_key(
        0x3f50_624d_d2f1_a9fc,
    ) || (function == 100 && key == 0));
    let material_ok = material == 0xffff_ffff_ffff_ffff || (material <= 0xffff_ffff
        && materials.contains(&(material as u32)));
    let deck_ok = deck == 0xffff_ffff_ffff_ffff || (deck <= 0xffff_ffff && declared.contains(
        &(deck as u32),
    ));
    let function_ok = function <= 5 || function == 100 || function == 200;
    if width_ok && material_ok && deck_ok && function_ok {
        Some(
            CompoundLayer {
                width_bits: w,
                material: if material == 0xffff_ffff_ffff_ffff { None } else { Some(material as u32) },
                function,
            },
        )
    } else {
        None
    }
}

/// The layers whose count sits at `count_at`: 1 to [`MAX_LAYERS`] records
/// of [`LAYER_RECORD_LEN`] bytes after it, each a layer.
pub fn layers_at(
    buf: &[u8],
    count_at: usize,
    materials: &BTreeSet<u32>,
    declared: &BTreeSet<u32>,
) -> (r: Option<Vec<CompoundLayer>>)
    ensures
        match r {
            Some(v) => spec_layers_at(buf@, count_at as int, materials@, declared@) == Some(v@),
            None => spec_layers_at(buf@, count_at as int, materials@, declared@) is None,
        },
{
    let count = match read_u32(buf, count_at) {
        Some(c) => c,
        None => {
            return None;
        },
    };
    if count < 1 || count as usize > MAX_LAYERS {
        return None;
    }
    let n = count as usize;
    let mut layers: Vec<CompoundLayer> = Vec::new();
    let mut index: usize = 0;
    while index < n
        invariant
            index <= n <= MAX_LAYERS,
            n == le_u32(buf@, count_at as int),
            count_at + 4 <= buf@.len(),
            layers@ == Seq::new(
                index as nat,
                |i: int| layer_at(buf@, count_at + 4 + LAYER_RECORD_LEN * i, materials@, declared@)->0,
            ),
            forall|i: int|
                0 <= i < index ==> #[trigger] layer_at(buf@, count_at + 4 + LAYER_RECORD_LEN * i, materials@, declared@)
                    is Some,
        decreases n - index,
    {
        if buf.len() - (count_at + 4) < LAYER_RECORD_LEN * index {
            proof {
                reveal(layer_at);
                assert(layer_at(buf@, count_at + 4 + LAYER_RECORD_LEN * (index as int), materials@, declared@) is None);
            }
            return None;
        }
        let at = count_at + 4 + LAYER_RECORD_LEN * index;
        match read_layer(buf, at, materials, declared) {
            Some(layer) => {
                layers.push(layer);
                assert(layers@ =~= Seq::new(
                    (index + 1) as nat,
                    |i: int| layer_at(buf@, count_at + 4 + LAYER_RECORD_LEN * i, materials@, declared@)->0,
                ));
            },
            None => {
                assert(layer_at(buf@, count_at + 4 + LAYER_RECORD_LEN * (index as int), materials@, declared@) is None);
                return None;
            },
        }
        index += 1;
    }
    Some(layers)
}


/// Whether `k` UTF-16 units, each at least `0x20`, follow a `u32 k` at
/// `start`.
pub open spec fn name_of_units_at(b: Seq<u8>, start: int, k: int) -> bool {
    &&& 0 <= start
    &&& start + 4 + 2 * k <= b.len()
    &&& le_u32(b, start) == k
    &&& forall|i: int| 0 <= i < k ==> #[trigger] le_u16(b, start + 4 + 2 * i) >= 0x20
}

/// Whether the layer count at `count_at` is framed as a type's layers
/// are: behind `ff ff ff ff` and the release's tag, or behind a type name
/// of 1 to [`MAX_NAME_UNITS`] units and a zero `u32`.
pub open spec fn spec_framed(b: Seq<u8>, count_at: int, tag: Seq<u8>) -> bool {
    &&& 0 <= count_at <= b.len()
    &&& {
        ||| (6 <= count_at && b.subrange(count_at - 6, count_at - 2) == seq![0xffu8, 0xffu8, 0xffu8, 0xffu8]
            && b.subrange(count_at - 2, count_at) == tag)
        ||| (4 <= count_at && le_u32(b, count_at - 4) == 0 && exists|k: int|
            1 <= k <= MAX_NAME_UNITS && #[trigger] name_of_units_at(b, count_at - 8 - 2 * k, k))
    }
}

fn units_at_least_space(buf: &[u8], start: usize, k: usize) -> (r: bool)
    requires
        start + 4 + 2 * k <= buf.len(),
    ensures
        r == forall|i: int| 0 <= i < k ==> #[trigger] le_u16(buf@, start + 4 + 2 * i) >= 0x20,
{
    let mut i: usize = 0;
    while i < k
        invariant
            i <= k,
            start + 4 + 2 * k <= buf.len(),
            forall|j: int| 0 <= j < i ==> #[trigger] le_u16(buf@, start + 4 + 2 * j) >= 0x20,
        decreases k - i,
    {
        let unit = read_u16(buf, start + 4 + 2 * i).unwrap();
        if unit < 0x20 {
            assert(le_u16(buf@, start + 4 + 2 * (i as int)) < 0x20);
            return false;
        }
        i += 1;
    }
    true
}

fn framed(buf: &[u8], count_at: usize, tag: [u8; 2]) -> (r: bool)
    ensures
        r == spec_framed(buf@, count_at as int, tag@),
{
    if count_at > buf.len() {
        return false;
    }
    if count_at >= 6 && buf[count_at - 6] == 0xff && buf[count_at - 5] == 0xff && buf[count_at - 4] == 0xff
        && buf[count_at - 3] == 0xff && buf[count_at - 2] == tag[0] && buf[count_at - 1] == tag[1] {
        assert(buf@.subrange(count_at - 6, count_at - 2) =~= seq![0xffu8, 0xffu8, 0xffu8, 0xffu8]);
        assert(buf@.subrange(count_at - 2, count_at as int) =~= tag@);
        return true;
    }
    assert(!(6 <= count_at && buf@.subrange(count_at - 6, count_at - 2) == seq![0xffu8, 0xffu8, 0xffu8, 0xffu8]
        && buf@.subrange(count_at - 2, count_at as int) == tag@)) by {
        if 6 <= count_at && buf@.subrange(count_at - 6, count_at - 2) == seq![0xffu8, 0xffu8, 0xffu8, 0xffu8]
            && buf@.subrange(count_at - 2, count_at as int) == tag@ {
            assert(buf@.subrange(count_at - 6, count_at - 2)[0] == buf@[count_at - 6]);
            assert(buf@.subrange(count_at - 6, count_at - 2)[1] == buf@[count_at - 5]);
            assert(buf@.subrange(count_at - 6, count_at - 2)[2] == buf@[count_at - 4]);
            assert(buf@.subrange(count_at - 6, count_at - 2)[3] == buf@[count_at - 3]);
            assert(buf@.subrange(count_at - 2, count_at as int)[0] == buf@[count_at - 2]);
            assert(buf@.subrange(count_at - 2, count_at as int)[1] == buf@[count_at - 1]);
        }
    }
    if count_at < 4 {
        return false;
    }
    match read_u32(buf, count_at - 4) {
        Some(0) => {},
        _ => {
            return false;
        },
    }
    let mut k: usize = 1;
    while k <= MAX_NAME_UNITS
        invariant
            1 <= k <= MAX_NAME_UNITS + 1,
            4 <= count_at <= buf@.len(),
            le_u32(buf@, count_at - 4) == 0,
            forall|j: int| 1 <= j < k ==> !#[trigger] name_of_units_at(buf@, count_at - 8 - 2 * j, j),
        decreases MAX_NAME_UNITS + 1 - k,
    {
        if count_at >= 8 + 2 * k {
            let start = count_at - 8 - 2 * k;
            if read_u32(buf, start) == Some(k as u32) && units_at_least_space(buf, start, k) {
                assert(name_of_units_at(buf@, count_at - 8 - 2 * (k as int), k as int));
                return true;
            }
        }
        k += 1;
    }
    false
}

/// The first framed layer list at or after `at`, before the last four
/// bytes of `d`.
pub open spec fn find_layers_from(d: Seq<u8>, tag: Seq<u8>, materials: Set<u32>, declared: Set<u32>, at: int) -> Option<
    Seq<CompoundLayer>,
>
    decreases d.len() - at,
{
    if at + 4 >= d.len() {
        None
    } else if spec_framed(d, at, tag) && spec_layers_at(d, at, materials, declared) is Some {
        spec_layers_at(d, at, materials, declared)
    } else {
        find_layers_from(d, tag, materials, declared, at + 1)
    }
}

/// The first framed layer list in a type's data, its count at offset 6
/// or later.
pub open spec fn spec_find_layers(d: Seq<u8>, tag: Seq<u8>, materials: Set<u32>, declared: Set<u32>) -> Option<
    Seq<CompoundLayer>,
> {
    find_layers_from(d, tag, materials, declared, 6)
}

/// The first framed layer list in `data`: the first offset from 6 on whose
/// count [`spec_framed`] frames and whose records are all layers.
pub fn find_layers(
    data: &[u8],
    tag: [u8; 2],
    materials: &BTreeSet<u32>,
    declared: &BTreeSet<u32>,
) -> (r: Option<Vec<CompoundLayer>>)
    ensures
        match r {
            Some(v) => spec_find_layers(data@, tag@, materials@, declared@) == Some(v@),
            None => spec_find_layers(data@, tag@, materials@, declared@) is None,
        },
{
    let mut at: usize = 6;
    while at < data.len() && data.len() - at > 4
        invariant
            6 <= at,
            find_layers_from(data@, tag@, materials@, declared@, at as int) == spec_find_layers(
                data@,
                tag@,
                materials@,
                declared@,
            ),
        decreases data@.len() - at,
    {
        if framed(data, at, tag) {
            match layers_at(data, at, materials, declared) {
                Some(v) => {
                    return Some(v);
                },
                None => {},
            }
        }
        at += 1;
    }
    None
}

/// A layer list as compared: each layer by [`layer_value`].
pub open spec fn layer_values(s: Seq<CompoundLayer>) -> Seq<(int, Option<u32>, u32)> {
    s.map_values(|l: CompoundLayer| layer_value(l))
}

/// One host type's layers, exterior (or top) first.
#[derive(Debug)]
pub struct TypeLayers {
    pub layers: Vec<CompoundLayer>,
}

impl View for TypeLayers {
    type V = Seq<(int, Option<u32>, u32)>;

    open spec fn view(&self) -> Seq<(int, Option<u32>, u32)> {
        layer_values(self.layers@)
    }
}

fn same_layer(a: &CompoundLayer, b: &CompoundLayer) -> (r: bool)
    ensures
        r == (layer_value(*a) == layer_value(*b)),
{
    f64_key(a.width_bits) == f64_key(b.width_bits) && a.material == b.material && a.function == b.function
}

impl Comparable for TypeLayers {
    fn same(&self, other: &Self) -> (r: bool) {
        let a = &self.layers;
        let b = &other.layers;
        if a.len() != b.len() {
            assert(self@.len() != other@.len());
            return false;
        }
        let mut i: usize = 0;
        while i < a.len()
            invariant
                i <= a@.len(),
                a@.len() == b@.len(),
                self@ == layer_values(a@),
                other@ == layer_values(b@),
                forall|k: int| 0 <= k < i ==> #[trigger] layer_values(a@)[k] == layer_values(b@)[k],
            decreases a@.len() - i,
        {
            if !same_layer(&a[i], &b[i]) {
                assert(self@[i as int] != other@[i as int]);
                return false;
            }
            i += 1;
        }
        assert(layer_values(a@) =~= layer_values(b@));
        true
    }

    fn duplicate(&self) -> (r: Self) {
        let a = &self.layers;
        let mut out: Vec<CompoundLayer> = Vec::new();
        let mut i: usize = 0;
        while i < a.len()
            invariant
                i <= a@.len(),
                out@ == a@.take(i as int),
            decreases a@.len() - i,
        {
            out.push(a[i]);
            assert(out@ =~= a@.take(i + 1));
            i += 1;
        }
        assert(a@.take(a@.len() as int) =~= a@);
        TypeLayers { layers: out }
    }
}

/// The layers the `k`-th header's element data gives a type.
pub open spec fn layers_entry(
    b: Seq<u8>,
    h: Seq<u8>,
    tag: Seq<u8>,
    types: Set<u32>,
    materials: Set<u32>,
    declared: Set<u32>,
    k: int,
) -> Option<(u32, Seq<(int, Option<u32>, u32)>)> {
    let hits = iter_hits_from(b, h, 0);
    match header_element(b, hits, k, h.len() as int, types) {
        None => None,
        Some(id) => match element_data(b, hits, k, h.len() as int, LAYER_WINDOW as int) {
            None => None,
            Some(d) => match spec_find_layers(d, tag, materials, declared) {
                None => None,
                Some(ls) => Some((id, layer_values(ls))),
            },
        },
    }
}

/// [`layers_entry`] for a fixed buffer.
pub open spec fn layers_fn(
    b: Seq<u8>,
    h: Seq<u8>,
    tag: Seq<u8>,
    types: Set<u32>,
    materials: Set<u32>,
    declared: Set<u32>,
) -> spec_fn(int) -> Option<(u32, Seq<(int, Option<u32>, u32)>)> {
    |k: int| layers_entry(b, h, tag, types, materials, declared, k)
}

/// The type layers one buffer holds, in header order.
pub open spec fn buffer_type_layers(
    b: Seq<u8>,
    h: Seq<u8>,
    tag: Seq<u8>,
    types: Set<u32>,
    materials: Set<u32>,
    declared: Set<u32>,
) -> Seq<(u32, Seq<(int, Option<u32>, u32)>)> {
    keep_some(indices(iter_hits_from(b, h, 0).len()), layers_fn(b, h, tag, types, materials, declared))
}

/// The type layers every stream holds, in stream order.
pub open spec fn all_type_layers(
    parts: Seq<(Seq<char>, Seq<u8>)>,
    h: Seq<u8>,
    tag: Seq<u8>,
    types: Set<u32>,
    materials: Set<u32>,
    declared: Set<u32>,
) -> Seq<(u32, Seq<(int, Option<u32>, u32)>)>
    decreases parts.len(),
{
    if parts.len() == 0 {
        Seq::empty()
    } else {
        all_type_layers(parts.drop_last(), h, tag, types, materials, declared) + buffer_type_layers(
            parts.last().1,
            h,
            tag,
            types,
            materials,
            declared,
        )
    }
}

/// Every `(type, layers)` of one buffer: the elements after each
/// element-data header, in order.
fn find_type_layers(
    buf: &[u8],
    header: &[u8],
    tag: [u8; 2],
    types: &BTreeSet<u32>,
    materials: &BTreeSet<u32>,
    declared: &BTreeSet<u32>,
) -> (r: Vec<(u32, TypeLayers)>)
    requires
        header@.len() > 0,
    ensures
        id_values(r@) == buffer_type_layers(buf@, header@, tag@, types@, materials@, declared@),
{
    let hits = find_iter_all(buf, header);
    let ghost ps = positions(hits@);
    let ghost f = layers_fn(buf@, header@, tag@, types@, materials@, declared@);
    let mut out: Vec<(u32, TypeLayers)> = Vec::new();
    let mut k: usize = 0;
    assert(indices(0) =~= Seq::<int>::empty());
    while k < hits.len()
        invariant
            k <= hits@.len(),
            ps == positions(hits@),
            ps == iter_hits_from(buf@, header@, 0),
            forall|j: int| 0 <= j < hits@.len() ==> #[trigger] hits@[j] + header@.len() <= buf@.len(),
            f == layers_fn(buf@, header@, tag@, types@, materials@, declared@),
            id_values(out@) == keep_some(indices(k as nat), f),
        decreases hits@.len() - k,
    {
        let ghost before = out@;
        proof {
            assert(indices((k + 1) as nat) =~= indices(k as nat).push(k as int));
            lemma_keep_some_push(indices(k as nat), k as int, f);
        }
        match element_window(buf, &hits, k, header.len(), LAYER_WINDOW, types) {
            Some((id, start, end)) => {
                let data = &buf[start..end];
                let got = find_layers(data, tag, materials, declared);
                proof {
                    assert(data@ == buf@.subrange(start as int, end as int));
                }
                match got {
                    Some(v) => {
                        let entry = TypeLayers { layers: v };
                        assert(f(k as int) == Some((id, entry@)));
                        out.push((id, entry));
                        assert(id_values(out@) =~= id_values(before).push((id, entry@)));
                    },
                    None => {
                        assert(f(k as int) is None);
                    },
                }
            },
            None => {
                assert(f(k as int) is None);
            },
        }
        k += 1;
    }
    out
}

/// Every host type's layers, by ElementId, read from the element data
/// after each element-data `header` in every partition: the first framed
/// layer list there. Only types in `types` count; a type whose copies
/// disagree is dropped. Empty without a header or on a release with no
/// layer frame tag.
pub fn scan_type_layers(
    partitions: &[InflatedPartition],
    header: Option<[u8; 10]>,
    revit_version: u32,
    types: &BTreeSet<u32>,
    materials: &BTreeSet<u32>,
    declared: &BTreeSet<u32>,
) -> (r: BTreeMap<u32, TypeLayers>)
    ensures
        header is None || spec_layer_frame_tag(revit_version) is None ==> r@.is_empty(),
        header matches Some(h) ==> (spec_layer_frame_tag(revit_version) matches Some(tag) ==> is_collapse_of(
            r@,
            all_type_layers(partition_views(partitions@), h@, tag@, types@, materials@, declared@),
        )),
{
    let (hdr, tag) = match (header, layer_frame_tag(revit_version)) {
        (Some(h), Some(t)) => (h, t),
        _ => {
            let empty = BTreeMap::new();
            assert(empty@ =~= Map::<u32, TypeLayers>::empty());
            return empty;
        },
    };
    let ghost parts = partition_views(partitions@);
    let mut entries: Vec<(u32, TypeLayers)> = Vec::new();
    let mut i: usize = 0;
    while i < partitions.len()
        invariant
            i <= partitions@.len(),
            parts == partition_views(partitions@),
            id_values(entries@) == all_type_layers(parts.take(i as int), hdr@, tag@, types@, materials@, declared@),
        decreases partitions@.len() - i,
    {
        let part = &partitions[i];
        let mut found = find_type_layers(part.bytes.as_slice(), &hdr, tag, types, materials, declared);
        let ghost before = entries@;
        let ghost got = found@;
        entries.append(&mut found);
        assert(id_values(entries@) =~= id_values(before) + id_values(got));
        proof {
            assert(parts.take(i + 1).drop_last() =~= parts.take(i as int));
            assert(parts.take(i + 1).last() == parts[i as int]);
            assert(parts[i as int] == (part.stream@, part.bytes@));
        }
        i += 1;
    }
    assert(parts.take(parts.len() as int) =~= parts);
    collapse_values(&entries)
}
/// Whether a layer, as compared, is one a type can have: a known function,
/// a material of `materials` or none, and a width below 10 ft that is at
/// least 0.001 ft (zero only on a membrane).
pub open spec fn layer_value_can_be(v: (int, Option<u32>, u32), materials: Set<u32>) -> bool {
    &&& ((0 <= v.2 <= 5) || v.2 == 100 || v.2 == 200)
    &&& (v.1 matches Some(x) ==> materials.contains(x))
    &&& v.0 < f64_bits_key(ten_feet())
    &&& (v.0 >= f64_bits_key(thousandth_foot()) || (v.2 == 100 && v.0 == 0))
}

/// Whether a layer list, as compared, is one a type can have: 1 to
/// [`MAX_LAYERS`] layers, each one a type can have.
pub open spec fn layer_values_can_be(vs: Seq<(int, Option<u32>, u32)>, materials: Set<u32>) -> bool {
    &&& 1 <= vs.len() <= MAX_LAYERS
    &&& forall|i: int| 0 <= i < vs.len() ==> #[trigger] layer_value_can_be(vs[i], materials)
}

proof fn lemma_found_from_can_be(d: Seq<u8>, tag: Seq<u8>, materials: Set<u32>, declared: Set<u32>, at: int)
    requires
        find_layers_from(d, tag, materials, declared, at) is Some,
    ensures
        layer_values_can_be(layer_values(find_layers_from(d, tag, materials, declared, at)->0), materials),
    decreases d.len() - at,
{
    if !(spec_framed(d, at, tag) && spec_layers_at(d, at, materials, declared) is Some) {
        lemma_found_from_can_be(d, tag, materials, declared, at + 1);
    } else {
        let ls = spec_layers_at(d, at, materials, declared)->0;
        let vs = layer_values(ls);
        assert forall|i: int| 0 <= i < vs.len() implies #[trigger] layer_value_can_be(vs[i], materials) by {
            let rec = at + 4 + LAYER_RECORD_LEN * i;
            assert(layer_at(d, rec, materials, declared) is Some);
            assert(ls[i] == layer_at(d, rec, materials, declared)->0);
            reveal(layer_at);
        }
    }
}

/// A type's first framed layer list holds only layers a type can have.
pub proof fn found_layers_can_be(d: Seq<u8>, tag: Seq<u8>, materials: Set<u32>, declared: Set<u32>)
    requires
        spec_find_layers(d, tag, materials, declared) is Some,
    ensures
        layer_values_can_be(layer_values(spec_find_layers(d, tag, materials, declared)->0), materials),
{
    lemma_found_from_can_be(d, tag, materials, declared, 6);
}

proof fn lemma_type_layer_entries_can_be(
    parts: Seq<(Seq<char>, Seq<u8>)>,
    h: Seq<u8>,
    tag: Seq<u8>,
    types: Set<u32>,
    materials: Set<u32>,
    declared: Set<u32>,
)
    ensures
        forall|i: int|
            0 <= i < all_type_layers(parts, h, tag, types, materials, declared).len() ==> layer_values_can_be(
                #[trigger] all_type_layers(parts, h, tag, types, materials, declared)[i].1,
                materials,
            ),
    decreases parts.len(),
{
    if parts.len() > 0 {
        lemma_type_layer_entries_can_be(parts.drop_last(), h, tag, types, materials, declared);
        let front = all_type_layers(parts.drop_last(), h, tag, types, materials, declared);
        let b = parts.last().1;
        let back = buffer_type_layers(b, h, tag, types, materials, declared);
        let all = all_type_layers(parts, h, tag, types, materials, declared);
        assert(all == front + back);
        assert forall|i: int| 0 <= i < all.len() implies layer_values_can_be(#[trigger] all[i].1, materials) by {
            if i >= front.len() {
                let k = i - front.len();
                let hits = indices(iter_hits_from(b, h, 0).len());
                let f = layers_fn(b, h, tag, types, materials, declared);
                crate::bytes::lemma_keep_some_member(hits, f, k);
                let j = choose|j: int| 0 <= j < hits.len() && f(#[trigger] hits[j]) == Some(keep_some(hits, f)[k]);
                let e = layers_entry(b, h, tag, types, materials, declared, hits[j]);
                let bh = iter_hits_from(b, h, 0);
                let d = element_data(b, bh, hits[j], h.len() as int, LAYER_WINDOW as int)->0;
                assert(spec_find_layers(d, tag, materials, declared) is Some);
                found_layers_can_be(d, tag, materials, declared);
                assert(all[i] == back[k]);
            }
        }
    }
}

/// Every host type the layer scan keeps has a list of 1 to
/// [`MAX_LAYERS`] layers, each one a type can have.
pub proof fn kept_type_layers_can_be(
    parts: Seq<(Seq<char>, Seq<u8>)>,
    h: Seq<u8>,
    tag: Seq<u8>,
    types: Set<u32>,
    materials: Set<u32>,
    declared: Set<u32>,
    id: u32,
)
    requires
        collapsed(all_type_layers(parts, h, tag, types, materials, declared), id) is Some,
    ensures
        layer_values_can_be(collapsed(all_type_layers(parts, h, tag, types, materials, declared), id)->0, materials),
{
    let e = all_type_layers(parts, h, tag, types, materials, declared);
    lemma_type_layer_entries_can_be(parts, h, tag, types, materials, declared);
    let i = choose|i: int| 0 <= i < e.len() && #[trigger] e[i].0 == id;
    assert(layer_values_can_be(e[i].1, materials));
}

} // verus!
