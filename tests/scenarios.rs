use peermaps_ingest::denorm::{
    absorb_nodes, denormalize_relations, denormalize_ways, relation_ref_table, way_ref_table,
};
use peermaps_ingest::rows::{
    external_id, insert_row, member_codes, multipolygon_geometry, node_geometry, relation_geometry, ring_members,
    way_bbox, way_geometry, way_positions, BBox, Member, MemberType, Role,
};
use peermaps_ingest::scan::Kind;
use peermaps_ingest::store::{Coord, Point, Row};
use std::collections::HashMap;

const PLACE_OTHER: u64 = 712;
const PARK: u64 = 300;
const CAFE: u64 = 47;
const WATER: u64 = 644;

fn park_nodes() -> Vec<(i64, (i32, i32))> {
    vec![
        (600, (130_000_000, 370_000_000)),
        (601, (130_100_000, 370_100_000)),
        (602, (130_200_000, 370_000_000)),
    ]
}

#[test]
fn triangle_park() {
    let ways = vec![(555i64, vec![600i64, 601, 602, 600])];
    let table = way_ref_table(&ways);
    assert_eq!(table.get(&600), Some(&vec![555, 555]));
    assert_eq!(table.get(&601), Some(&vec![555]));
    let deps = denormalize_ways(&table, &vec![park_nodes(), vec![(9999, (0, 0))]]);
    assert_eq!(deps.len(), 3);
    assert!(!deps.contains_key(&9999));
    let (pdeps, point) = way_geometry(PARK, PLACE_OTHER, &ways[0].1, &deps).unwrap();
    assert_eq!(pdeps.len(), 3);
    assert_eq!(pdeps.get(&601), Some(&(130_100_000, 370_100_000)));
    assert_eq!(
        point,
        Point {
            x: Coord::Interval(130_000_000, 130_200_000),
            y: Coord::Interval(370_000_000, 370_100_000),
        }
    );
    assert_eq!(external_id(555, Kind::Way), 1666);
    match insert_row(point, vec![2, 44, 0x82, 0x0d]) {
        Some(Row::Insert(p, v)) => {
            assert_eq!(p, point);
            assert_eq!(v.get_id(), Some(1666));
        }
        _ => panic!("expected an insert"),
    }
}

#[test]
fn cafe_point() {
    assert_eq!(external_id(1312, Kind::Node), 1312 * 3);
    let point = node_geometry(CAFE, PLACE_OTHER, (130_200_000, 370_000_000)).unwrap();
    assert_eq!(
        point,
        Point { x: Coord::Scalar(130_200_000), y: Coord::Scalar(370_000_000) }
    );
    match insert_row(point, vec![1, 47, 0xe0, 0x1e]) {
        Some(Row::Insert(p, v)) => {
            assert_eq!(p, point);
            assert_eq!(v.get_id(), Some(3936));
        }
        _ => panic!("expected an insert"),
    }
}

#[test]
fn lake_with_island() {
    let members = vec![
        Member { id: 710, member_type: MemberType::Way, role: Role::Outer },
        Member { id: 711, member_type: MemberType::Way, role: Role::Inner },
        Member { id: 5, member_type: MemberType::Node, role: Role::Other },
    ];
    let rings = ring_members(&members);
    assert_eq!(rings.len(), 2);
    assert_eq!(member_codes(&members), vec![1420, 1423]);
    let rel_table = relation_ref_table(&vec![(700, vec![710, 711, 5])]);
    let way_chunks = vec![
        vec![(710i64, vec![1i64, 2, 3, 4, 1]), (712, vec![9, 10])],
        vec![(711i64, vec![5i64, 6, 7, 5])],
    ];
    let node_chunks = vec![vec![
        (1i64, (0i32, 0i32)),
        (2, (40, 0)),
        (3, (40, 40)),
        (4, (0, 40)),
        (5, (10, 10)),
        (6, (20, 10)),
        (7, (20, 20)),
        (9, (99, 99)),
    ]];
    let (node_deps, way_deps) = denormalize_relations(&rel_table, &way_chunks, &node_chunks);
    assert_eq!(way_deps.len(), 2);
    assert_eq!(way_deps.get(&711), Some(&vec![5, 6, 7, 5]));
    assert!(!way_deps.contains_key(&712));
    assert_eq!(node_deps.len(), 8);
    let (pdeps, point) =
        relation_geometry(WATER, PLACE_OTHER, &rings, &way_deps, &node_deps).unwrap();
    assert_eq!(pdeps.len(), 7);
    assert_eq!(point, Point { x: Coord::Interval(0, 40), y: Coord::Interval(0, 40) });
    assert_eq!(external_id(700, Kind::Relation), 2102);
    let tags = vec![
        ("type".to_string(), "multipolygon".to_string()),
        ("natural".to_string(), "water".to_string()),
    ];
    let (rs, pdeps, point) =
        multipolygon_geometry(WATER, PLACE_OTHER, &tags, &members, &way_deps, &node_deps).unwrap();
    assert_eq!(rs, rings);
    assert_eq!(pdeps.len(), 7);
    assert_eq!(point, Point { x: Coord::Interval(0, 40), y: Coord::Interval(0, 40) });
    let plain = vec![("natural".to_string(), "water".to_string())];
    assert!(multipolygon_geometry(WATER, PLACE_OTHER, &plain, &members, &way_deps, &node_deps).is_none());
    assert!(multipolygon_geometry(WATER, PLACE_OTHER, &tags, &members[2..].to_vec(), &way_deps, &node_deps).is_none());
}

#[test]
fn place_other_drop() {
    assert_eq!(node_geometry(PLACE_OTHER, PLACE_OTHER, (0, 0)), None);
    let deps: HashMap<i64, (i32, i32)> = park_nodes().into_iter().collect();
    assert!(way_geometry(PLACE_OTHER, PLACE_OTHER, &vec![600, 601, 602, 600], &deps).is_none());
}

#[test]
fn missing_ref() {
    let refs = vec![600i64, 99_999_999];
    let table = way_ref_table(&vec![(888, refs.clone())]);
    let mut deps = HashMap::new();
    absorb_nodes(&mut deps, &table, &park_nodes());
    let pdeps = way_positions(&refs, &deps);
    assert_eq!(pdeps.len(), 1);
    assert!(way_geometry(PARK, PLACE_OTHER, &refs, &deps).is_none());
}

#[test]
fn empty_encoding_is_skipped() {
    let point = Point { x: Coord::Scalar(1), y: Coord::Scalar(2) };
    assert!(insert_row(point, vec![]).is_none());
}

#[test]
fn bbox_of_park() {
    let deps: HashMap<i64, (i32, i32)> = park_nodes().into_iter().collect();
    assert_eq!(
        way_bbox(&vec![600, 601, 602, 600, 77], &deps),
        Some(BBox { xmin: 130_000_000, ymin: 370_000_000, xmax: 130_200_000, ymax: 370_100_000 })
    );
    assert_eq!(way_bbox(&vec![77], &deps), None);
}

#[test]
fn later_node_wins() {
    let table = way_ref_table(&vec![(1, vec![600])]);
    let deps = denormalize_ways(&table, &vec![vec![(600, (1, 1))], vec![(600, (2, 2))]]);
    assert_eq!(deps.get(&600), Some(&(2, 2)));
}
