//! Record framing of the native scene's continuation groups: the
//! provenance and coverage records an extraction reports, the dual-length
//! record walk, and the line-marker search of a record body.

use vstd::prelude::*;
use crate::bytes::{le_u32, le_u64, matches_at, occurs_at};

pub mod index;

verus! {

/// Where an element's record came from.
#[derive(Debug, Clone)]
pub struct Source {
    pub stream: String,
    /// Offset of the first segment marker in the checksum-prepared stream.
    pub group_marker_offset: usize,
    /// Offset of the record in the reassembled, inflated continuation group.
    pub group_record_offset: usize,
    pub group_segment_count: usize,
    pub body_sha256: String,
    pub stored_revision: u32,
    pub other_revision: u32,
}

/// How much of the indexed document an extraction recognised.
#[derive(Debug, Clone, Copy, PartialEq, Eq, Structural)]
pub struct Coverage {
    pub indexed_rows: usize,
    pub recognized_native_class_records: usize,
    pub recognized_native_owners: usize,
    pub recognized_geometry_owners: usize,
    pub mesh_owners: usize,
    pub recognized_geometry_owners_without_mesh: usize,
    pub indexed_rows_not_recognized: usize,
}

impl Default for Coverage {
    /// All counts zero.
    fn default() -> (c: Coverage)
        ensures
            c == (Coverage {
                indexed_rows: 0,
                recognized_native_class_records: 0,
                recognized_native_owners: 0,
                recognized_geometry_owners: 0,
                mesh_owners: 0,
                recognized_geometry_owners_without_mesh: 0,
                indexed_rows_not_recognized: 0,
            }),
    {
        Coverage {
            indexed_rows: 0,
            recognized_native_class_records: 0,
            recognized_native_owners: 0,
            recognized_geometry_owners: 0,
            mesh_owners: 0,
            recognized_geometry_owners_without_mesh: 0,
            indexed_rows_not_recognized: 0,
        }
    }
}

/// The four bytes that open a line record inside a body.
pub open spec fn line_marker() -> Seq<u8> {
    seq![4u8, 0, 8, 1]
}

/// Every offset of `body` where the line marker starts, in order,
/// overlapping occurrences included.
pub fn markers(body: &[u8]) -> (r: Vec<usize>)
    ensures
        forall|k: int| 0 <= k < r@.len() ==> occurs_at(body@, line_marker(), #[trigger] r@[k] as int),
        forall|k: int, l: int| 0 <= k < l < r@.len() ==> r@[k] < r@[l],
        forall|i: int| occurs_at(body@, line_marker(), i) ==> r@.contains(i as usize),
{
    let needle: [u8; 4] = [4, 0, 8, 1];
    assert(needle@ =~= line_marker());
    let mut out: Vec<usize> = Vec::new();
    let mut i: usize = 0;
    while i < body.len()
        invariant
            i <= body@.len(),
            needle@ == line_marker(),
            forall|k: int| 0 <= k < out@.len() ==> occurs_at(body@, line_marker(), #[trigger] out@[k] as int),
            forall|k: int| 0 <= k < out@.len() ==> #[trigger] out@[k] < i,
            forall|k: int, l: int| 0 <= k < l < out@.len() ==> out@[k] < out@[l],
            forall|j: int| 0 <= j < i && occurs_at(body@, line_marker(), j) ==> out@.contains(j as usize),
        decreases body@.len() - i,
    {
        let ghost before = out@;
        if matches_at(body, i, needle.as_slice()) {
            out.push(i);
            proof {
                assert(out@[out@.len() - 1] == i);
                assert forall|j: int| 0 <= j < i + 1 && occurs_at(body@, line_marker(), j) implies out@.contains(j as usize) by {
                    if j < i {
                        assert(before.contains(j as usize));
                        let k = choose|k: int| 0 <= k < before.len() && before[k] == j as usize;
                        assert(out@[k] == j as usize);
                    } else {
                        assert(out@[out@.len() - 1] == j as usize);
                    }
                }
            }
        }
        i += 1;
    }
    out
}

/// Why a continuation group's records do not frame.
#[derive(Debug, Clone, Copy, PartialEq, Eq, Structural)]
pub enum GroupError {
    /// The group's channel has no known record header.
    UnsupportedChannel,
    /// Fewer bytes remain than a record header needs.
    TruncatedHeader,
    /// The body runs past the group or its trailing length differs.
    DualLengthsDisagree,
    /// The record count or body size differs from what the group declares.
    CountsDisagree,
}

/// The record header length of a channel: 12 on channel 101, 16 on 102
/// and 103.
pub open spec fn channel_header(channel: u32) -> Option<int> {
    if channel == 101 {
        Some(12)
    } else if channel == 102 || channel == 103 {
        Some(16)
    } else {
        None
    }
}

/// The records from `pos` on: `(id, header offset, body start, body end)`,
/// each a header of `header` bytes whose last four hold the body length,
/// then the body, then the length again; or the first error.
pub open spec fn spec_group_from(bytes: Seq<u8>, pos: int, header: int) -> Result<
    Seq<(u64, usize, usize, usize)>,
    GroupError,
>
    decreases bytes.len() - pos,
{
    if pos >= bytes.len() || pos < 0 || header < 4 {
        Ok(Seq::empty())
    } else if bytes.len() - pos < header + 4 {
        Err(GroupError::TruncatedHeader)
    } else {
        let length = le_u32(bytes, pos + header - 4);
        let start = pos + header;
        let end = start + length;
        if end + 4 > bytes.len() || le_u32(bytes, end) != length {
            Err(GroupError::DualLengthsDisagree)
        } else {
            match spec_group_from(bytes, end + 4, header) {
                Ok(rest) => Ok(
                    seq![(le_u64(bytes, pos) as u64, pos as usize, start as usize, end as usize)]
                        + rest,
                ),
                Err(e) => Err(e),
            }
        }
    }
}

/// The sum of the body lengths of `records`.
pub open spec fn body_total(records: Seq<(u64, usize, usize, usize)>) -> int
    decreases records.len(),
{
    if records.len() == 0 {
        0
    } else {
        body_total(records.drop_last()) + (records.last().3 - records.last().2)
    }
}

/// Validate every record of a continuation group of `channel` and return
/// `(id, header offset, body start, body end)` for each, when the walk
/// frames the whole group and its record count and body bytes are the
/// declared ones.
pub fn group_records(
    channel: u32,
    declared_objects: u64,
    declared_body_bytes: u64,
    bytes: &[u8],
) -> (r: Result<Vec<(u64, usize, usize, usize)>, GroupError>)
    ensures
        match channel_header(channel) {
            None => r == Err::<Vec<(u64, usize, usize, usize)>, GroupError>(
                GroupError::UnsupportedChannel,
            ),
            Some(h) => match spec_group_from(bytes@, 0, h) {
                Err(e) => r == Err::<Vec<(u64, usize, usize, usize)>, GroupError>(e),
                Ok(records) => if records.len() == declared_objects && body_total(records)
                    == declared_body_bytes {
                    r matches Ok(v) && v@ == records
                } else {
                    r == Err::<Vec<(u64, usize, usize, usize)>, GroupError>(
                        GroupError::CountsDisagree,
                    )
                },
            },
        },
{
    let header: usize = if channel == 101 {
        12
    } else if channel == 102 || channel == 103 {
        16
    } else {
        return Err(GroupError::UnsupportedChannel);
    };
    let ghost h = header as int;
    let len = bytes.len();
    let mut pos: usize = 0;
    let mut records: Vec<(u64, usize, usize, usize)> = Vec::new();
    let mut body_bytes: u64 = 0;
    while pos < len
        invariant
            len == bytes@.len(),
            pos <= len,
            h == header,
            header == 12 || header == 16,
            channel_header(channel) == Some(h),
            body_bytes == body_total(records@),
            body_bytes <= pos,
            forall|k: int| 0 <= k < records@.len() ==> #[trigger] records@[k].3 >= records@[k].2,
            spec_group_from(bytes@, 0, h) == (match spec_group_from(bytes@, pos as int, h) {
                Ok(rest) => Ok(records@ + rest),
                Err(e) => Err(e),
            }),
        decreases len - pos,
    {
        if len - pos < header + 4 {
            return Err(GroupError::TruncatedHeader);
        }
        let id = crate::native_scene::index::u64_at(bytes, pos).unwrap();
        let length = crate::native_scene::index::u32_at(bytes, pos + header - 4).unwrap() as usize;
        let start = pos + header;
        if length > len - start || len - start - length < 4 {
            return Err(GroupError::DualLengthsDisagree);
        }
        let end = start + length;
        let echo = crate::native_scene::index::u32_at(bytes, end).unwrap() as usize;
        if echo != length {
            return Err(GroupError::DualLengthsDisagree);
        }
        let ghost before = records@;
        records.push((id, pos, start, end));
        proof {
            assert(records@.drop_last() =~= before);
            match spec_group_from(bytes@, end + 4, h) {
                Ok(rest) => {
                    assert(records@ + rest =~= before + (seq![(id, pos, start, end)] + rest));
                },
                Err(e) => {},
            }
        }
        body_bytes = body_bytes + length as u64;
        pos = end + 4;
    }
    proof {
        assert(records@ + Seq::<(u64, usize, usize, usize)>::empty() =~= records@);
    }
    if records.len() as u64 != declared_objects || body_bytes != declared_body_bytes {
        return Err(GroupError::CountsDisagree);
    }
    Ok(records)
}

} // verus!
