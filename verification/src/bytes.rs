//! Little-endian readers and substring search over byte buffers.

use vstd::prelude::*;

verus! {

/// The `u16` stored little-endian at `off`.
pub open spec fn le_u16(s: Seq<u8>, off: int) -> int {
    s[off] as int + 256 * s[off + 1] as int
}

/// The `u32` stored little-endian at `off`.
pub open spec fn le_u32(s: Seq<u8>, off: int) -> int {
    le_u16(s, off) + 65536 * le_u16(s, off + 2)
}

/// The `u64` stored little-endian at `off`.
pub open spec fn le_u64(s: Seq<u8>, off: int) -> int {
    le_u32(s, off) + 4294967296 * le_u32(s, off + 4)
}

/// Whether `needle` occurs in `hay` starting at `at`.
pub open spec fn occurs_at(hay: Seq<u8>, needle: Seq<u8>, at: int) -> bool {
    &&& 0 <= at
    &&& at + needle.len() <= hay.len()
    &&& hay.subrange(at, at + needle.len()) == needle
}

/// The first occurrence of `needle` in `hay`, as the search reports it.
pub open spec fn first_occurrence(hay: Seq<u8>, needle: Seq<u8>, r: Option<usize>) -> bool {
    match r {
        Some(i) => occurs_at(hay, needle, i as int) && forall|j: int|
            0 <= j < i ==> !#[trigger] occurs_at(hay, needle, j),
        None => forall|j: int| !#[trigger] occurs_at(hay, needle, j),
    }
}

/// The last occurrence of `needle` in `hay`, as the search reports it.
pub open spec fn last_occurrence(hay: Seq<u8>, needle: Seq<u8>, r: Option<usize>) -> bool {
    match r {
        Some(i) => occurs_at(hay, needle, i as int) && forall|j: int|
            i < j ==> !#[trigger] occurs_at(hay, needle, j),
        None => forall|j: int| !#[trigger] occurs_at(hay, needle, j),
    }
}

proof fn lemma_le_u16_bound(s: Seq<u8>, off: int)
    requires
        0 <= off,
        off + 2 <= s.len(),
    ensures
        0 <= le_u16(s, off) < 0x1_0000,
{
}

proof fn lemma_le_u32_bound(s: Seq<u8>, off: int)
    requires
        0 <= off,
        off + 4 <= s.len(),
    ensures
        0 <= le_u32(s, off) < 0x1_0000_0000,
{
    lemma_le_u16_bound(s, off);
    lemma_le_u16_bound(s, off + 2);
}

/// The `u16` at `off`, or `None` when the buffer ends first.
pub fn read_u16(buf: &[u8], off: usize) -> (r: Option<u16>)
    ensures
        r is Some <==> off + 2 <= buf@.len(),
        r matches Some(v) ==> v == le_u16(buf@, off as int),
{
    if off > buf.len() || buf.len() - off < 2 {
        return None;
    }
    let v: u16 = buf[off] as u16 + 256 * (buf[off + 1] as u16);
    Some(v)
}

/// The `u32` at `off`, or `None` when the buffer ends first.
pub fn read_u32(buf: &[u8], off: usize) -> (r: Option<u32>)
    ensures
        r is Some <==> off + 4 <= buf@.len(),
        r matches Some(v) ==> v == le_u32(buf@, off as int),
{
    if off > buf.len() || buf.len() - off < 4 {
        return None;
    }
    let lo: u32 = buf[off] as u32 + 256 * (buf[off + 1] as u32);
    let hi: u32 = buf[off + 2] as u32 + 256 * (buf[off + 3] as u32);
    Some(lo + 65536 * hi)
}

/// The `u64` at `off`, or `None` when the buffer ends first.
pub fn read_u64(buf: &[u8], off: usize) -> (r: Option<u64>)
    ensures
        r is Some <==> off + 8 <= buf@.len(),
        r matches Some(v) ==> v == le_u64(buf@, off as int),
{
    if off > buf.len() || buf.len() - off < 8 {
        return None;
    }
    let lo = read_u32(buf, off).unwrap();
    let hi = read_u32(buf, off + 4).unwrap();
    proof {
        lemma_le_u32_bound(buf@, off as int);
        lemma_le_u32_bound(buf@, off + 4);
        assert(hi * 4294967296 <= 0xffff_ffff * 4294967296) by (nonlinear_arith)
            requires hi <= 0xffff_ffff;
    }
    Some(lo as u64 + 4294967296 * (hi as u64))
}

/// `memchr::memmem::find`: the index of the first occurrence of `needle`
/// in `haystack`. The crate documents this result; the contract states it
/// for a non-empty needle.
#[verifier::external_body]
fn memmem_find(haystack: &[u8], needle: &[u8]) -> (r: Option<usize>)
    requires
        needle@.len() > 0,
    ensures
        first_occurrence(haystack@, needle@, r),
{
    memchr::memmem::find(haystack, needle)
}

/// `memchr::memmem::rfind`: the index of the last occurrence of `needle`
/// in `haystack`. The crate documents this result; the contract states it
/// for a non-empty needle.
#[verifier::external_body]
fn memmem_rfind(haystack: &[u8], needle: &[u8]) -> (r: Option<usize>)
    requires
        needle@.len() > 0,
    ensures
        last_occurrence(haystack@, needle@, r),
{
    memchr::memmem::rfind(haystack, needle)
}

/// The first occurrence of `needle` in `buf` at or after `from`.
pub fn find_from(buf: &[u8], from: usize, needle: &[u8]) -> (r: Option<usize>)
    requires
        needle@.len() > 0,
    ensures
        match r {
            Some(i) => from <= i && occurs_at(buf@, needle@, i as int) && forall|j: int|
                from <= j < i ==> !#[trigger] occurs_at(buf@, needle@, j),
            None => forall|j: int| from <= j ==> !#[trigger] occurs_at(buf@, needle@, j),
        },
{
    if from > buf.len() {
        assert forall|j: int| from <= j implies !#[trigger] occurs_at(buf@, needle@, j) by {}
        return None;
    }
    let tail = &buf[from..buf.len()];
    let found = memmem_find(tail, needle);
    match found {
        Some(i) => {
            assert(tail@.subrange(i as int, i + needle@.len()) =~= buf@.subrange(
                from + i,
                from + i + needle@.len(),
            ));
            assert forall|j: int| from <= j < from + i implies !#[trigger] occurs_at(
                buf@,
                needle@,
                j,
            ) by {
                if occurs_at(buf@, needle@, j) {
                    assert(tail@.subrange(j - from, j - from + needle@.len()) =~= buf@.subrange(
                        j,
                        j + needle@.len(),
                    ));
                    assert(occurs_at(tail@, needle@, j - from));
                }
            }
            Some(from + i)
        },
        None => {
            assert forall|j: int| from <= j implies !#[trigger] occurs_at(buf@, needle@, j) by {
                if occurs_at(buf@, needle@, j) {
                    assert(tail@.subrange(j - from, j - from + needle@.len()) =~= buf@.subrange(
                        j,
                        j + needle@.len(),
                    ));
                    assert(occurs_at(tail@, needle@, j - from));
                }
            }
            None
        },
    }
}

/// The last occurrence of `needle` lying wholly inside `buf[lo..hi]`.
pub fn rfind_within(buf: &[u8], lo: usize, hi: usize, needle: &[u8]) -> (r: Option<usize>)
    requires
        needle@.len() > 0,
        lo <= hi <= buf@.len(),
    ensures
        match r {
            Some(i) => lo <= i && i + needle@.len() <= hi && occurs_at(buf@, needle@, i as int)
                && forall|j: int|
                i < j && j + needle@.len() <= hi ==> !#[trigger] occurs_at(buf@, needle@, j),
            None => forall|j: int|
                lo <= j && j + needle@.len() <= hi ==> !#[trigger] occurs_at(buf@, needle@, j),
        },
{
    let window = &buf[lo..hi];
    let found = memmem_rfind(window, needle);
    match found {
        Some(i) => {
            assert(window@.subrange(i as int, i + needle@.len()) =~= buf@.subrange(
                lo + i,
                lo + i + needle@.len(),
            ));
            assert forall|j: int|
                lo + i < j && j + needle@.len() <= hi implies !#[trigger] occurs_at(
                buf@,
                needle@,
                j,
            ) by {
                if occurs_at(buf@, needle@, j) {
                    assert(window@.subrange(j - lo, j - lo + needle@.len()) =~= buf@.subrange(
                        j,
                        j + needle@.len(),
                    ));
                    assert(occurs_at(window@, needle@, j - lo));
                }
            }
            Some(lo + i)
        },
        None => {
            assert forall|j: int|
                lo <= j && j + needle@.len() <= hi implies !#[trigger] occurs_at(
                buf@,
                needle@,
                j,
            ) by {
                if occurs_at(buf@, needle@, j) {
                    assert(window@.subrange(j - lo, j - lo + needle@.len()) =~= buf@.subrange(
                        j,
                        j + needle@.len(),
                    ));
                    assert(occurs_at(window@, needle@, j - lo));
                }
            }
            None
        },
    }
}

/// Whether `buf[at..at + needle.len()]` equals `needle`.
pub fn matches_at(buf: &[u8], at: usize, needle: &[u8]) -> (r: bool)
    ensures
        r == occurs_at(buf@, needle@, at as int),
{
    if at > buf.len() || buf.len() - at < needle.len() {
        return false;
    }
    let mut k: usize = 0;
    while k < needle.len()
        invariant
            at + needle@.len() <= buf@.len(),
            buf@.len() <= usize::MAX,
            0 <= k <= needle@.len(),
            forall|m: int| 0 <= m < k ==> buf@[at + m] == needle@[m],
        decreases needle@.len() - k,
    {
        if buf[at + k] != needle[k] {
            assert(buf@.subrange(at as int, at + needle@.len())[k as int] != needle@[k as int]);
            return false;
        }
        k += 1;
    }
    assert(buf@.subrange(at as int, at + needle@.len()) =~= needle@);
    true
}

/// Every position at or after `from` where `needle` occurs, in order,
/// overlapping occurrences included.
pub open spec fn hits_from(hay: Seq<u8>, needle: Seq<u8>, from: int) -> Seq<int>
    decreases hay.len() - from,
{
    if from < 0 || from + needle.len() > hay.len() || needle.len() == 0 {
        Seq::empty()
    } else if occurs_at(hay, needle, from) {
        seq![from] + hits_from(hay, needle, from + 1)
    } else {
        hits_from(hay, needle, from + 1)
    }
}

/// What a scan keeps of its hits: `f` applied to each, the `None`s dropped.
pub open spec fn keep_some<V>(hits: Seq<int>, f: spec_fn(int) -> Option<V>) -> Seq<V>
    decreases hits.len(),
{
    if hits.len() == 0 {
        Seq::empty()
    } else {
        match f(hits[0]) {
            Some(v) => seq![v] + keep_some(hits.drop_first(), f),
            None => keep_some(hits.drop_first(), f),
        }
    }
}

/// A hit at `at` splits off the front of the hits from `at`.
pub proof fn lemma_hits_step(hay: Seq<u8>, needle: Seq<u8>, at: int)
    requires
        needle.len() > 0,
        occurs_at(hay, needle, at),
    ensures
        hits_from(hay, needle, at) == seq![at] + hits_from(hay, needle, at + 1),
        hits_from(hay, needle, at).drop_first() == hits_from(hay, needle, at + 1),
        hits_from(hay, needle, at)[0] == at,
        hits_from(hay, needle, at).len() > 0,
{
    assert((seq![at] + hits_from(hay, needle, at + 1)).drop_first() =~= hits_from(
        hay,
        needle,
        at + 1,
    ));
}

/// Positions without an occurrence contribute no hit.
pub proof fn lemma_hits_skip(hay: Seq<u8>, needle: Seq<u8>, from: int, to: int)
    requires
        needle.len() > 0,
        0 <= from <= to,
        forall|j: int| from <= j < to ==> !#[trigger] occurs_at(hay, needle, j),
    ensures
        hits_from(hay, needle, from) == hits_from(hay, needle, to),
    decreases to - from,
{
    if from < to {
        assert(!occurs_at(hay, needle, from));
        lemma_hits_skip(hay, needle, from + 1, to);
        if from + needle.len() > hay.len() {
            lemma_hits_empty(hay, needle, to);
        }
    }
}

/// Past the last possible start there is no hit.
pub proof fn lemma_hits_empty(hay: Seq<u8>, needle: Seq<u8>, from: int)
    requires
        needle.len() > 0,
        from + needle.len() > hay.len(),
    ensures
        hits_from(hay, needle, from) == Seq::<int>::empty(),
{
}

/// With no occurrence at or after `from`, there is no hit.
pub proof fn lemma_hits_none(hay: Seq<u8>, needle: Seq<u8>, from: int)
    requires
        needle.len() > 0,
        0 <= from,
        forall|j: int| from <= j ==> !#[trigger] occurs_at(hay, needle, j),
    ensures
        hits_from(hay, needle, from) == Seq::<int>::empty(),
    decreases hay.len() - from,
{
    if from + needle.len() <= hay.len() {
        assert(!occurs_at(hay, needle, from));
        lemma_hits_none(hay, needle, from + 1);
    }
}

/// Keeping from a sequence whose head is `h`.
pub proof fn lemma_keep_some_step<V>(hits: Seq<int>, f: spec_fn(int) -> Option<V>)
    requires
        hits.len() > 0,
    ensures
        keep_some(hits, f) == (match f(hits[0]) {
            Some(v) => seq![v] + keep_some(hits.drop_first(), f),
            None => keep_some(hits.drop_first(), f),
        }),
{
}

/// What a sequence holds after a push.
pub proof fn lemma_push_contains<A>(s: Seq<A>, x: A, y: A)
    ensures
        s.push(x).contains(y) <==> (s.contains(y) || y == x),
{
    if s.push(x).contains(y) {
        let k = choose|k: int| 0 <= k < s.push(x).len() && s.push(x)[k] == y;
        if k < s.len() {
            assert(s[k] == y);
        }
    }
    if s.contains(y) {
        let k = choose|k: int| 0 <= k < s.len() && s[k] == y;
        assert(s.push(x)[k] == y);
    }
    if y == x {
        assert(s.push(x)[s.len() as int] == x);
    }
}

/// The positions `memmem::find_iter` reports from `from` on: each
/// occurrence of `needle`, the search resuming past the end of the last
/// one, so that reported occurrences never overlap.
pub open spec fn iter_hits_from(hay: Seq<u8>, needle: Seq<u8>, from: int) -> Seq<int>
    decreases hay.len() - from,
{
    if from < 0 || from + needle.len() > hay.len() || needle.len() == 0 {
        Seq::empty()
    } else if occurs_at(hay, needle, from) {
        seq![from] + iter_hits_from(hay, needle, from + needle.len())
    } else {
        iter_hits_from(hay, needle, from + 1)
    }
}

/// A reported occurrence at `at` splits off the front of the positions from
/// `at`.
pub proof fn lemma_iter_hits_step(hay: Seq<u8>, needle: Seq<u8>, at: int)
    requires
        needle.len() > 0,
        0 <= at,
        occurs_at(hay, needle, at),
    ensures
        iter_hits_from(hay, needle, at) == seq![at] + iter_hits_from(hay, needle, at + needle.len()),
{
}

/// Positions without an occurrence are passed over.
pub proof fn lemma_iter_hits_skip(hay: Seq<u8>, needle: Seq<u8>, from: int, to: int)
    requires
        needle.len() > 0,
        0 <= from <= to,
        forall|j: int| from <= j < to ==> !#[trigger] occurs_at(hay, needle, j),
    ensures
        iter_hits_from(hay, needle, from) == iter_hits_from(hay, needle, to),
    decreases to - from,
{
    if from < to {
        assert(!occurs_at(hay, needle, from));
        lemma_iter_hits_skip(hay, needle, from + 1, to);
        if from + needle.len() > hay.len() {
            lemma_iter_hits_none(hay, needle, to);
        }
    }
}

/// With no occurrence at or after `from`, nothing is reported.
pub proof fn lemma_iter_hits_none(hay: Seq<u8>, needle: Seq<u8>, from: int)
    requires
        needle.len() > 0,
        0 <= from,
        forall|j: int| from <= j ==> !#[trigger] occurs_at(hay, needle, j),
    ensures
        iter_hits_from(hay, needle, from) == Seq::<int>::empty(),
    decreases hay.len() - from,
{
    if from + needle.len() <= hay.len() {
        assert(!occurs_at(hay, needle, from));
        lemma_iter_hits_none(hay, needle, from + 1);
    }
}

/// The first position at or after `from` where `needle` occurs.
pub open spec fn next_occurrence(hay: Seq<u8>, needle: Seq<u8>, from: int) -> Option<int>
    decreases hay.len() - from,
{
    if from < 0 || needle.len() == 0 || from + needle.len() > hay.len() {
        None
    } else if occurs_at(hay, needle, from) {
        Some(from)
    } else {
        next_occurrence(hay, needle, from + 1)
    }
}

/// An occurrence found from `from` lies at or after it and fits the
/// buffer.
pub proof fn lemma_next_occurrence_bounds(hay: Seq<u8>, needle: Seq<u8>, from: int)
    ensures
        next_occurrence(hay, needle, from) matches Some(i) ==> from <= i && i + needle.len()
            <= hay.len() && occurs_at(hay, needle, i),
    decreases hay.len() - from,
{
    if !(from < 0 || needle.len() == 0 || from + needle.len() > hay.len()) && !occurs_at(
        hay,
        needle,
        from,
    ) {
        lemma_next_occurrence_bounds(hay, needle, from + 1);
    }
}

pub proof fn lemma_next_occurrence_found(hay: Seq<u8>, needle: Seq<u8>, from: int, i: int)
    requires
        needle.len() > 0,
        0 <= from <= i,
        occurs_at(hay, needle, i),
        forall|j: int| from <= j < i ==> !#[trigger] occurs_at(hay, needle, j),
    ensures
        next_occurrence(hay, needle, from) == Some(i),
    decreases i - from,
{
    if from < i {
        assert(!occurs_at(hay, needle, from));
        lemma_next_occurrence_found(hay, needle, from + 1, i);
    }
}

proof fn lemma_next_occurrence_none(hay: Seq<u8>, needle: Seq<u8>, from: int)
    requires
        needle.len() > 0,
        0 <= from,
        forall|j: int| from <= j ==> !#[trigger] occurs_at(hay, needle, j),
    ensures
        next_occurrence(hay, needle, from) is None,
    decreases hay.len() - from,
{
    if from + needle.len() <= hay.len() {
        assert(!occurs_at(hay, needle, from));
        lemma_next_occurrence_none(hay, needle, from + 1);
    }
}

/// The first occurrence of `needle` at or after `from`, as
/// [`next_occurrence`] states it.
pub fn find_next(buf: &[u8], from: usize, needle: &[u8]) -> (r: Option<usize>)
    requires
        needle@.len() > 0,
    ensures
        match r {
            Some(i) => next_occurrence(buf@, needle@, from as int) == Some(i as int),
            None => next_occurrence(buf@, needle@, from as int) is None,
        },
{
    let r = find_from(buf, from, needle);
    proof {
        match r {
            Some(i) => lemma_next_occurrence_found(buf@, needle@, from as int, i as int),
            None => lemma_next_occurrence_none(buf@, needle@, from as int),
        }
    }
    r
}

/// Positions as integers.
pub open spec fn positions(v: Seq<usize>) -> Seq<int> {
    v.map_values(|x: usize| x as int)
}

/// Every position `memmem::find_iter` reports `needle` at in `buf`, in
/// order.
pub fn find_iter_all(buf: &[u8], needle: &[u8]) -> (r: Vec<usize>)
    requires
        needle@.len() > 0,
    ensures
        positions(r@) == iter_hits_from(buf@, needle@, 0),
        forall|k: int| 0 <= k < r@.len() ==> #[trigger] r@[k] + needle@.len() <= buf@.len(),
{
    let ghost n = needle@;
    let nlen = needle.len();
    let len = buf.len();
    let mut out: Vec<usize> = Vec::new();
    let mut cursor: usize = 0;
    assert(positions(out@) + iter_hits_from(buf@, n, 0) =~= iter_hits_from(buf@, n, 0));
    while cursor <= len && len - cursor >= nlen
        invariant
            len == buf@.len(),
            n == needle@,
            nlen == n.len(),
            nlen > 0,
            iter_hits_from(buf@, n, 0) == positions(out@) + iter_hits_from(buf@, n, cursor as int),
            forall|k: int| 0 <= k < out@.len() ==> #[trigger] out@[k] + nlen <= len,
        ensures
            iter_hits_from(buf@, n, cursor as int) == Seq::<int>::empty(),
        decreases len + 1 - cursor,
    {
        let hit = match find_from(buf, cursor, needle) {
            Some(h) => h,
            None => {
                proof {
                    lemma_iter_hits_none(buf@, n, cursor as int);
                }
                break;
            },
        };
        proof {
            lemma_iter_hits_skip(buf@, n, cursor as int, hit as int);
            lemma_iter_hits_step(buf@, n, hit as int);
        }
        let ghost before = out@;
        out.push(hit);
        proof {
            assert(positions(out@) =~= positions(before).push(hit as int));
            assert(positions(out@) + iter_hits_from(buf@, n, hit + nlen) =~= positions(before) + (seq![
                hit as int,
            ] + iter_hits_from(buf@, n, hit + nlen)));
        }
        cursor = hit + nlen;
    }
    assert(positions(out@) + Seq::<int>::empty() =~= positions(out@));
    out
}

/// Keeping from a sequence with one more item at its end.
pub proof fn lemma_keep_some_push<V>(s: Seq<int>, x: int, f: spec_fn(int) -> Option<V>)
    ensures
        keep_some(s.push(x), f) == keep_some(s, f) + (match f(x) {
            Some(v) => seq![v],
            None => Seq::empty(),
        }),
    decreases s.len(),
{
    let tail = match f(x) {
        Some(v) => seq![v],
        None => Seq::<V>::empty(),
    };
    if s.len() == 0 {
        assert(s.push(x).drop_first() =~= Seq::<int>::empty());
        assert(keep_some(s.push(x).drop_first(), f) == Seq::<V>::empty());
        assert(keep_some(s.push(x), f) =~= tail);
        assert(keep_some(s, f) + tail =~= tail);
    } else {
        assert(s.push(x).drop_first() =~= s.drop_first().push(x));
        lemma_keep_some_push(s.drop_first(), x, f);
        match f(s[0]) {
            Some(v) => {
                assert(keep_some(s.push(x), f) =~= seq![v] + (keep_some(s.drop_first(), f) + tail));
            },
            None => {},
        }
    }
}

/// Every item a scan keeps is what `f` gives at one of the hits.
pub proof fn lemma_keep_some_member<V>(hits: Seq<int>, f: spec_fn(int) -> Option<V>, k: int)
    requires
        0 <= k < keep_some(hits, f).len(),
    ensures
        exists|j: int| 0 <= j < hits.len() && f(#[trigger] hits[j]) == Some(keep_some(hits, f)[k]),
    decreases hits.len(),
{
    if hits.len() > 0 {
        let rest = keep_some(hits.drop_first(), f);
        match f(hits[0]) {
            Some(v) => {
                assert(keep_some(hits, f) == seq![v] + rest);
                if k == 0 {
                    assert(f(hits[0]) == Some(keep_some(hits, f)[k]));
                } else {
                    lemma_keep_some_member(hits.drop_first(), f, k - 1);
                    let j = choose|j: int|
                        0 <= j < hits.drop_first().len() && f(#[trigger] hits.drop_first()[j]) == Some(rest[k - 1]);
                    assert(f(hits[j + 1]) == Some(keep_some(hits, f)[k]));
                }
            },
            None => {
                lemma_keep_some_member(hits.drop_first(), f, k);
                let j = choose|j: int|
                    0 <= j < hits.drop_first().len() && f(#[trigger] hits.drop_first()[j]) == Some(rest[k]);
                assert(f(hits[j + 1]) == Some(keep_some(hits, f)[k]));
            },
        }
    }
}

/// Every position `memmem::find_iter` reports is an occurrence at or after
/// where the search began.
pub proof fn lemma_iter_hit_occurs(hay: Seq<u8>, needle: Seq<u8>, from: int, k: int)
    requires
        0 <= k < iter_hits_from(hay, needle, from).len(),
    ensures
        from <= iter_hits_from(hay, needle, from)[k],
        occurs_at(hay, needle, iter_hits_from(hay, needle, from)[k]),
    decreases hay.len() - from,
{
    if !(from < 0 || from + needle.len() > hay.len() || needle.len() == 0) {
        if occurs_at(hay, needle, from) {
            if k > 0 {
                lemma_iter_hit_occurs(hay, needle, from + needle.len(), k - 1);
                assert(iter_hits_from(hay, needle, from)[k] == iter_hits_from(hay, needle, from + needle.len())[k - 1]);
            }
        } else {
            lemma_iter_hit_occurs(hay, needle, from + 1, k);
        }
    }
}

} // verus!
