use peermaps_ingest::scan::{blob_interval, offsets_for_ids, window, BlobRef, Interval, Kind, ScanTable};
use peermaps_ingest::scan_file::{decode_table, encode_table};
use peermaps_ingest::varint::VarintError;
use peermaps_ingest::rows::{get_node_offsets_from_ways, get_way_offsets_from_relations, Member, MemberType, Role};

fn blob(offset: u64, len: usize) -> BlobRef {
    BlobRef { offset, byte_len: 10, len }
}

fn table() -> ScanTable {
    let mut t = ScanTable::new();
    t.insert(Kind::Way, 500, 600, blob(300, 4));
    t.insert(Kind::Way, 1, 100, blob(100, 4));
    t.insert(Kind::Way, 50, 700, blob(200, 4));
    t.insert(Kind::Node, 1, 1000, blob(50, 9));
    t
}

#[test]
fn lookup_returns_every_overlapping_blob() {
    let t = table();
    let found = t.blobs_containing(Kind::Way, 80);
    assert_eq!(found, vec![blob(100, 4), blob(200, 4)]);
    assert!(t.blobs_containing(Kind::Relation, 80).is_empty());
    assert_eq!(t.blob_offsets(Kind::Node), vec![blob(50, 9)]);
}

#[test]
fn extend_unions_tables() {
    let mut a = table();
    let mut b = ScanTable::new();
    b.insert(Kind::Relation, 7, 9, blob(900, 1));
    a.extend(&b);
    assert_eq!(a.blobs_containing(Kind::Relation, 8), vec![blob(900, 1)]);
    assert_eq!(a.ways.len(), 3);
}

#[test]
fn offsets_once_each() {
    let t = table();
    let mut offs = offsets_for_ids(&t, Kind::Way, &vec![80, 90, 550, 5000]);
    offs.sort();
    assert_eq!(offs, vec![(100, 10), (200, 10), (300, 10)]);
}

#[test]
fn windows_cover_every_blob_once() {
    let t = table();
    let (next, first) = window(&t, Kind::Way, 0, 8);
    assert_eq!(first, vec![(100, 10), (200, 10)]);
    assert_eq!(next, Some(300));
    let (next, second) = window(&t, Kind::Way, 300, 8);
    assert_eq!(second, vec![(300, 10)]);
    assert_eq!(next, None);
}

#[test]
fn window_takes_oversized_first_blob() {
    let t = table();
    let (next, none) = window(&t, Kind::Way, 0, 1);
    assert!(none.is_empty());
    assert_eq!(next, Some(100));
    let (next, first) = window(&t, Kind::Way, 100, 1);
    assert_eq!(first, vec![(100, 10)]);
    assert_eq!(next, Some(200));
}

#[test]
fn blob_interval_spans_ids() {
    let b = blob(40, 3);
    assert_eq!(
        blob_interval(&vec![7, 3, 9], b),
        Some(Interval { min_id: 3, max_id: 9, blob: b })
    );
    assert_eq!(blob_interval(&vec![], b), None);
}

#[test]
fn scan_file_round_trip() {
    let mut t = table();
    t.insert(Kind::Relation, -5, 3, blob(900, 2));
    let bytes = encode_table(&t);
    assert_eq!(&bytes[..2], &[1, 1]);
    let back = decode_table(&bytes).unwrap();
    assert_eq!(back.nodes, t.nodes);
    assert_eq!(back.ways, t.ways);
    assert_eq!(back.relations, t.relations);
}

#[test]
fn scan_file_truncated() {
    assert_eq!(decode_table(&[1, 1, 2]).err(), Some(VarintError::TruncatedInput));
    assert_eq!(decode_table(&[]).err(), Some(VarintError::TruncatedInput));
}

#[test]
fn targeted_offsets_for_batches() {
    let mut t = table();
    t.insert(Kind::Node, 2000, 3000, blob(60, 9));
    let mut offs = get_node_offsets_from_ways(&t, &vec![(1, vec![5, 2500]), (2, vec![7])]);
    offs.sort();
    assert_eq!(offs, vec![(50, 10), (60, 10)]);
    let members = vec![
        Member { id: 80, member_type: MemberType::Way, role: Role::Outer },
        Member { id: 550, member_type: MemberType::Way, role: Role::Other },
        Member { id: 650, member_type: MemberType::Node, role: Role::Inner },
    ];
    let mut ways = get_way_offsets_from_relations(&t, &members);
    ways.sort();
    assert_eq!(ways, vec![(100, 10), (200, 10)]);
}
