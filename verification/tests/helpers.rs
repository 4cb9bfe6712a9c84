use rvt_partitions::bytes::{
    find_from, find_iter_all, find_next, matches_at, read_u16, read_u32, read_u64, rfind_within,
};
use rvt_partitions::collapse::{collapse_values, drop_shared_values};
use rvt_partitions::native_scene::index::{u32_at, u64_at, IndexError};
use rvt_partitions::native_scene::{group_records, markers, GroupError};
use rvt_partitions::partition_element_records::{from_signed, to_signed, u64_le_bytes};
use rvt_partitions::text::{
    any_control, chars_of, contains_str, ends_with_str, equals_str, lower_chars, starts_with_str,
    string_of, trim_chars, utf8_length,
};

#[test]
fn little_endian_reads_stop_at_the_end() {
    let b = [1u8, 2, 3, 4, 5, 6, 7, 8, 9];
    assert_eq!(read_u16(&b, 0), Some(0x0201));
    assert_eq!(read_u32(&b, 1), Some(0x05040302));
    assert_eq!(read_u64(&b, 1), Some(0x0908070605040302));
    assert_eq!(read_u64(&b, 2), None);
    assert_eq!(read_u32(&b, 100), None);
    assert_eq!(u32_at(&b, 6), Err(IndexError::TruncatedU32));
    assert_eq!(u64_at(&b, 0), Ok(0x0807060504030201));
}

#[test]
fn searches_find_first_last_and_every_occurrence() {
    let b = b"abcabcab";
    assert_eq!(find_from(b, 1, b"ab"), Some(3));
    assert_eq!(find_next(b, 7, b"ab"), None);
    assert_eq!(rfind_within(b, 0, 6, b"ab"), Some(3));
    assert_eq!(rfind_within(b, 1, 4, b"ab"), None);
    assert!(matches_at(b, 6, b"ab"));
    assert!(!matches_at(b, 7, b"ab"));
    assert_eq!(find_iter_all(b"aaaa", b"aa"), vec![0, 2]);
}

#[test]
fn collapse_drops_disagreeing_and_shared_values() {
    let entries = vec![(1u32, 10u32), (2, 20), (1, 10), (3, 30), (3, 31), (4, 20)];
    let m = collapse_values(&entries);
    assert_eq!(m.into_iter().collect::<Vec<_>>(), vec![(1, 10), (2, 20), (4, 20)]);
    let m = collapse_values(&entries);
    let kept = drop_shared_values(&entries, &m);
    assert_eq!(kept.into_iter().collect::<Vec<_>>(), vec![(1, 10)]);
}

#[test]
fn signed_words_round_trip() {
    assert_eq!(to_signed(u64::MAX), -1);
    assert_eq!(from_signed(-2_000_011), (-2_000_011i64) as u64);
    assert_eq!(u64_le_bytes(0x0102), [2, 1, 0, 0, 0, 0, 0, 0]);
}

#[test]
fn text_helpers() {
    let s = chars_of("  Héllo\t");
    assert_eq!(string_of(&trim_chars(&s)), "Héllo");
    assert_eq!(string_of(&lower_chars(&chars_of("AbC"))), "abc");
    assert!(contains_str(&s, "ll"));
    assert!(starts_with_str(&s, "  H"));
    assert!(ends_with_str(&s, "o\t"));
    assert!(equals_str(&chars_of("x"), "x"));
    assert_eq!(utf8_length(&chars_of("é€")), 5);
    assert!(any_control(&s));
    assert!(!any_control(&chars_of("plain")));
}

#[test]
fn line_markers_overlap_and_come_in_order() {
    let body = [0u8, 4, 0, 8, 1, 4, 0, 8, 1, 9];
    assert_eq!(markers(&body), vec![1, 5]);
}

fn record(id: u64, header: usize, body: &[u8]) -> Vec<u8> {
    let mut v = id.to_le_bytes().to_vec();
    v.resize(header - 4, 0);
    v.extend((body.len() as u32).to_le_bytes());
    v.extend(body);
    v.extend((body.len() as u32).to_le_bytes());
    v
}

#[test]
fn group_records_walk_the_dual_lengths() {
    let mut bytes = record(7, 12, &[1, 2, 3]);
    bytes.extend(record(8, 12, &[4]));
    assert_eq!(group_records(101, 2, 4, &bytes), Ok(vec![(7, 0, 12, 15), (8, 19, 31, 32)]));
    assert_eq!(group_records(101, 3, 4, &bytes), Err(GroupError::CountsDisagree));
    assert_eq!(group_records(100, 2, 4, &bytes), Err(GroupError::UnsupportedChannel));
    let mut broken = bytes.clone();
    let last = broken.len() - 1;
    broken[last] = 9;
    assert_eq!(group_records(101, 2, 4, &broken), Err(GroupError::DualLengthsDisagree));
    assert_eq!(group_records(102, 0, 0, &bytes[..10]), Err(GroupError::TruncatedHeader));
}
