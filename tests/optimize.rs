use peermaps_ingest::divide::divide;
use peermaps_ingest::optimize::{claim, extra_cells, grid_cells, point_bounds, union_bounds};
use peermaps_ingest::rows::BBox;
use peermaps_ingest::store::{Coord, Point};
use std::collections::HashMap;

fn iv(x0: i32, x1: i32, y0: i32, y1: i32) -> Point {
    Point { x: Coord::Interval(x0, x1), y: Coord::Interval(y0, y1) }
}

fn meets(b: &BBox, c: &BBox) -> bool {
    b.xmin <= c.xmax && c.xmin <= b.xmax && b.ymin <= c.ymax && c.ymin <= b.ymax
}

#[test]
fn optimize_equivalence() {
    let records = vec![
        (1666u64, iv(130_000_000, 130_200_000, 370_000_000, 370_100_000)),
        (3936u64, Point { x: Coord::Scalar(130_200_000), y: Coord::Scalar(370_000_000) }),
        (2102u64, iv(130_300_000, 130_500_000, 370_200_000, 370_400_000)),
    ];
    let roots: Vec<BBox> = records.iter().map(|(_, p)| point_bounds(*p)).collect();
    let bounds = union_bounds(&roots).unwrap();
    assert_eq!(
        bounds,
        BBox { xmin: 130_000_000, ymin: 370_000_000, xmax: 130_500_000, ymax: 370_400_000 }
    );
    let cells = grid_cells(bounds, 4, 4);
    assert_eq!(cells.len(), 16);
    let mut skip: HashMap<u64, u64> = HashMap::new();
    let mut kept: Vec<(u64, Point)> = vec![];
    for cell in cells.iter() {
        for (id, p) in records.iter() {
            if !meets(&point_bounds(*p), cell) {
                continue;
            }
            if claim(&mut skip, *id, extra_cells(*p, *cell)) {
                kept.push((*id, *p));
            }
        }
    }
    let mut ids: Vec<u64> = kept.iter().map(|(id, _)| *id).collect();
    ids.sort();
    assert_eq!(ids, vec![1666, 2102, 3936]);
    let points: Vec<Point> = kept.iter().map(|(_, p)| *p).collect();
    let buckets = divide(1, bounds, &points);
    let mut all: Vec<usize> = buckets.iter().flat_map(|(_, b)| b.clone()).collect();
    all.sort();
    assert_eq!(all, vec![0, 1, 2]);
}

#[test]
fn grid_cells_tile_bounds() {
    let cells = grid_cells(BBox { xmin: 0, ymin: 0, xmax: 100, ymax: 10 }, 4, 2);
    assert_eq!(cells[0], BBox { xmin: 0, ymin: 0, xmax: 25, ymax: 5 });
    assert_eq!(cells[3], BBox { xmin: 75, ymin: 0, xmax: 100, ymax: 5 });
    assert_eq!(cells[4], BBox { xmin: 0, ymin: 5, xmax: 25, ymax: 10 });
}

#[test]
fn extra_cells_counts_spanned_cells() {
    let cell = BBox { xmin: 0, ymin: 0, xmax: 10, ymax: 10 };
    assert_eq!(extra_cells(Point { x: Coord::Scalar(5), y: Coord::Scalar(5) }, cell), 0);
    assert_eq!(extra_cells(iv(2, 8, 2, 8), cell), 0);
    assert_eq!(extra_cells(iv(5, 25, 2, 8), cell), 2);
    assert_eq!(extra_cells(iv(5, 25, 5, 25), cell), 8);
}

#[test]
fn claim_first_keeps_later_drop() {
    let mut skip = HashMap::new();
    assert!(claim(&mut skip, 7, 2));
    assert!(!claim(&mut skip, 7, 2));
    assert_eq!(skip.get(&7), Some(&1));
    assert!(!claim(&mut skip, 7, 2));
    assert!(skip.is_empty());
    assert!(claim(&mut skip, 8, 0));
    assert!(skip.is_empty());
}

#[test]
fn divide_partitions() {
    let mut points = vec![];
    for i in 0..20 {
        points.push(Point { x: Coord::Scalar(i * 5), y: Coord::Scalar((i * 7) % 100) });
    }
    let bounds = BBox { xmin: 0, ymin: 0, xmax: 100, ymax: 100 };
    let buckets = divide(4, bounds, &points);
    let mut all: Vec<usize> = buckets.iter().flat_map(|(_, b)| b.clone()).collect();
    all.sort();
    assert_eq!(all, (0..20).collect::<Vec<usize>>());
    assert!(buckets.iter().all(|(_, b)| !b.is_empty() && b.len() <= 4));
    assert!(buckets.iter().all(|(b, _)| {
        (b.xmax <= 50 || b.xmin >= 50) && (b.ymax <= 50 || b.ymin >= 50) && b.xmin >= 0 && b.xmax <= 100
    }));
    let small = divide(30, bounds, &points);
    assert_eq!(small.len(), 1);
    assert_eq!(small[0].0, bounds);
    assert_eq!(small[0].1.len(), 20);
}

#[test]
fn divide_keeps_big_items_together() {
    let points = vec![iv(0, 100, 0, 100); 5];
    let buckets = divide(2, BBox { xmin: 0, ymin: 0, xmax: 100, ymax: 100 }, &points);
    assert_eq!(buckets.len(), 1);
    assert_eq!(buckets[0].1.len(), 5);
    assert_eq!(buckets[0].0, BBox { xmin: 0, ymin: 0, xmax: 50, ymax: 50 });
}

#[test]
fn divide_empty_input_is_one_bucket() {
    let bounds = BBox { xmin: 0, ymin: 0, xmax: 10, ymax: 10 };
    let buckets = divide(3, bounds, &vec![]);
    assert_eq!(buckets, vec![(bounds, vec![])]);
}

#[test]
fn divide_sends_points_to_best_quarter() {
    let points = vec![
        iv(10, 90, 60, 90),
        iv(60, 90, 10, 40),
        Point { x: Coord::Scalar(20), y: Coord::Scalar(20) },
    ];
    let bounds = BBox { xmin: 0, ymin: 0, xmax: 100, ymax: 100 };
    let buckets = divide(2, bounds, &points);
    assert_eq!(buckets.len(), 3);
    assert_eq!(buckets[0], (BBox { xmin: 0, ymin: 0, xmax: 50, ymax: 50 }, vec![2]));
    assert_eq!(buckets[1], (BBox { xmin: 50, ymin: 0, xmax: 100, ymax: 50 }, vec![1]));
    assert_eq!(buckets[2], (BBox { xmin: 0, ymin: 50, xmax: 50, ymax: 100 }, vec![0]));
}
