use peermaps_ingest::store::{Coord, EStore, LStore, LWrite, Point, Row};
use peermaps_ingest::value::V;

fn pt(x: i32) -> Point {
    Point { x: Coord::Scalar(x), y: Coord::Scalar(x) }
}

fn record(id_lo: u8) -> V {
    V::new(vec![1, 47, id_lo, 0xff])
}

fn ids(rows: &[Row]) -> Vec<(bool, u64)> {
    rows.iter()
        .map(|r| match r {
            Row::Insert(_, v) => (true, v.get_id().unwrap()),
            Row::Delete(_, id) => (false, *id),
        })
        .collect()
}

#[test]
fn insert_then_delete_cancels() {
    let mut s = EStore::new();
    s.push_create(pt(1), record(5));
    s.push_create(pt(2), record(6));
    s.push_delete(pt(2), 6);
    let rows = s.flush().unwrap();
    assert_eq!(ids(&rows), vec![(true, 5)]);
    assert_eq!(s.batch.len(), 2);
    assert!(!s.flushed());
    assert_eq!(s.flush_count, 1);
    assert!(s.flush().is_none());
}

#[test]
fn update_over_nothing_is_delete_and_insert() {
    let mut s = EStore::new();
    s.push_update(&pt(1), &pt(2), &record(9));
    let rows = s.flush().unwrap();
    assert_eq!(ids(&rows), vec![(false, 9), (true, 9)]);
    match &rows[0] {
        Row::Delete(p, _) => assert_eq!(*p, pt(1)),
        _ => panic!("expected a delete"),
    }
    match &rows[1] {
        Row::Insert(p, _) => assert_eq!(*p, pt(2)),
        _ => panic!("expected an insert"),
    }
}

#[test]
fn update_over_insert_replaces_it() {
    let mut s = EStore::new();
    s.push_create(pt(1), record(9));
    s.push_update(&pt(1), &pt(3), &record(9));
    let rows = s.flush().unwrap();
    assert_eq!(ids(&rows), vec![(true, 9)]);
    match &rows[0] {
        Row::Insert(p, _) => assert_eq!(*p, pt(3)),
        _ => panic!("expected an insert"),
    }
}

#[test]
fn update_over_delete_keeps_delete() {
    let mut s = EStore::new();
    s.push_delete(pt(1), 9);
    s.push_update(&pt(1), &pt(4), &record(9));
    s.push_delete(pt(4), 9);
    s.push_delete(pt(4), 9);
    let rows = s.flush().unwrap();
    assert_eq!(ids(&rows), vec![(false, 9)]);
}

#[test]
fn full_and_sync() {
    let mut s = EStore::new();
    s.batch_size = 2;
    s.sync_interval = 2;
    s.push_create(pt(1), record(1));
    assert!(!s.is_full());
    s.push_create(pt(2), record(2));
    assert!(s.is_full());
    assert_eq!(s.flush().unwrap().len(), 2);
    assert!(!s.flushed());
    assert_eq!(s.flush_count, 1);
    s.push_delete(pt(9), 9);
    assert_eq!(ids(&s.flush().unwrap()), vec![(false, 9)]);
    assert!(s.flushed());
    assert_eq!(s.flush_count, 0);
    assert!(!s.sync());
    s.push_create(pt(3), record(3));
    s.flush().unwrap();
    s.flushed();
    assert!(s.sync());
    assert_eq!(s.flush_count, 0);
}

#[test]
fn failed_write_keeps_rows() {
    let mut s = EStore::new();
    s.push_create(pt(1), record(4));
    let first = s.flush().unwrap();
    let again = s.flush().unwrap();
    assert_eq!(ids(&first), ids(&again));
    assert!(!s.flushed());
    assert!(s.flush().is_none());
}

#[test]
fn lstore_batches() {
    let mut l = LStore::new();
    l.batch_size = 2;
    assert!(l.put(b"a", b"1").is_none());
    assert_eq!(l.updates.len(), 1);
    let out = l.del(b"b").unwrap();
    assert_eq!(out.len(), 2);
    match &out[0] {
        LWrite::Put((k, v)) => {
            assert_eq!(k, b"a");
            assert_eq!(v, b"1");
        }
        _ => panic!("expected a put"),
    }
    match &out[1] {
        LWrite::Del(k) => assert_eq!(k, b"b"),
        _ => panic!("expected a delete"),
    }
    assert_eq!(l.updates.len(), 0);
    assert_eq!(l.count, 2);
    assert!(l.put(b"c", b"3").is_none());
    assert_eq!(l.sync().len(), 1);
    assert!(l.sync().is_empty());
}

#[test]
fn value_id() {
    let v = V::new(vec![2, 0x80, 0x01, 0x82, 0x0d, 7]);
    assert_eq!(v.get_id(), Some(1666));
    assert_eq!(v.len(), 6);
    assert!(!v.is_empty());
    assert_eq!(V::new(vec![2, 0x80]).get_id(), None);
    assert!(V::new(vec![]).is_empty());
}
