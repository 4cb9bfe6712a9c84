use rvt_partitions::partition_id_objects::{find_id_objects, OBJECT_PREFIX};
use std::collections::BTreeSet;

fn object(id: u64) -> Vec<u8> {
    let mut v = OBJECT_PREFIX.to_vec();
    v.extend(id.to_le_bytes());
    v
}

#[test]
fn finds_wanted_ids_in_buffer_order() {
    let mut buf = vec![9u8, 9];
    buf.extend(object(42));
    buf.extend(object(7));
    buf.extend(object(1000));
    buf.extend(object(0x1_0000_0007));
    let ids: BTreeSet<u32> = [7, 42].into_iter().collect();
    assert_eq!(find_id_objects(&buf, &ids), vec![(42, 6), (7, 18)]);
}

#[test]
fn empty_id_set_finds_nothing() {
    let buf = object(3);
    assert!(find_id_objects(&buf, &BTreeSet::new()).is_empty());
}

#[test]
fn truncated_id_is_not_an_object() {
    let mut buf = object(5);
    buf.truncate(10);
    let ids: BTreeSet<u32> = [5].into_iter().collect();
    assert!(find_id_objects(&buf, &ids).is_empty());
}

#[test]
fn one_pass_finds_what_a_search_per_id_finds() {
    // An object whose id is 1 holds a second prefix inside its own id.
    let mut buf = object(1);
    buf.extend(object(7));
    buf.extend([1u8, 0, 0]);
    buf.extend(object(1));
    let ids: BTreeSet<u32> = [1, 7].into_iter().collect();
    let found = find_id_objects(&buf, &ids);
    for id in [1u64, 7] {
        let needle: Vec<u8> = object(id);
        let per_id: Vec<usize> = (0..buf.len().saturating_sub(11))
            .filter(|&p| buf[p..p + 12] == needle[..])
            .map(|p| p + 4)
            .collect();
        let one_pass: Vec<usize> =
            found.iter().filter(|(i, _)| u64::from(*i) == id).map(|(_, o)| *o).collect();
        assert_eq!(one_pass, per_id);
    }
    assert_eq!(found, vec![(1, 4), (7, 16), (1, 31)]);
}
