use hexit::bytes::{decode_records, push_le64, read_le64};
use hexit::cells::{normalize_cells, sorted_dedup_vec};
use hexit::lut::{lut_decode_exec, lut_encode};
use hexit::source::region_name;
use hexit::err::Error;

#[test]
fn records_drop_trailing_partial() {
    let mut b = Vec::new();
    push_le64(&mut b, 0x0102030405060708);
    push_le64(&mut b, 42);
    b.extend_from_slice(&[1, 2, 3]);
    assert_eq!(decode_records(&b), vec![0x0102030405060708, 42]);
}

#[test]
fn le64_roundtrip() {
    let mut b = vec![0xaa];
    push_le64(&mut b, u64::MAX - 7);
    assert_eq!(read_le64(&b, 1), u64::MAX - 7);
}

#[test]
fn region_name_stops_at_first_dot() {
    assert_eq!(region_name(&b"alpha.res7.h3idz".to_vec()), b"alpha".to_vec());
    assert_eq!(region_name(&b"noext".to_vec()), b"noext".to_vec());
    assert_eq!(region_name(&b".hidden".to_vec()), b"".to_vec());
}

#[test]
fn dedup_sorts_and_removes_duplicates() {
    let raw = vec![5u64, 3, 5, 1, 3, 3];
    assert_eq!(sorted_dedup_vec(&raw), vec![1, 3, 5]);
}

#[test]
fn lut_encoding_matches_reference_serializer() {
    let vals = vec![b"alpha".to_vec(), b"beta".to_vec()];
    let ours = lut_encode(&vals);
    let strings = vec!["alpha".to_string(), "beta".to_string()];
    let reference = bincode::serialize(&strings).unwrap();
    assert_eq!(ours, reference);
    let back = lut_decode_exec(&ours, 0).unwrap();
    assert_eq!(back, vals);
}

#[test]
fn lut_decode_fails_on_truncated_bytes() {
    let vals = vec![b"alpha".to_vec()];
    let mut bytes = lut_encode(&vals);
    bytes.truncate(bytes.len() - 1);
    assert_eq!(lut_decode_exec(&bytes, 0), Err(Error::CorruptArtifact));
}

#[test]
fn normalize_compacts_complete_sibling_sets() {
    let parent = h3o::CellIndex::try_from(0x851fb467fffffff).unwrap();
    let children: Vec<u64> =
        parent.children(h3o::Resolution::Six).map(u64::from).collect();
    let extra = u64::from(
        h3o::LatLng::new(-30.0, 100.0).unwrap().to_cell(h3o::Resolution::Six),
    );
    // duplicate some children; add one lone cell at the same resolution
    let mut raw = children.clone();
    raw.extend_from_slice(&children);
    raw.push(extra);
    let normalized = normalize_cells(raw.clone()).unwrap();
    // the complete sibling set coalesces into the parent
    assert!(normalized.contains(&u64::from(parent)));
    assert!(normalized.contains(&extra));
    assert_eq!(normalized.len(), 2);
    // expanding back to leaf resolution restores the deduplicated raw set
    let cells: Vec<h3o::CellIndex> =
        normalized.iter().map(|&c| h3o::CellIndex::try_from(c).unwrap()).collect();
    let mut expanded: Vec<u64> =
        h3o::CellIndex::uncompact(cells, h3o::Resolution::Six).map(u64::from).collect();
    expanded.sort_unstable();
    let mut expected = raw;
    expected.sort_unstable();
    expected.dedup();
    assert_eq!(expanded, expected);
}
