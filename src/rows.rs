use vstd::prelude::*;
use std::collections::HashMap;
use crate::denorm::Pos;
use crate::scan::{covers_ids, offsets_for_ids, Kind, ScanTable};
use crate::store::{Coord, Point, Row};
use crate::optimize::union_box;
use crate::value::V;

verus! {

broadcast use vstd::std_specs::hash::group_hash_axioms;

/// How an ingest run is set up.
pub struct IngestOptions {
    /// Capacity of the channels between stages, in chunks.
    pub channel_size: usize,
    /// Most ways read in one pass.
    pub way_batch_size: usize,
    /// Most relations read in one pass.
    pub relation_batch_size: usize,
    pub ingest_node: bool,
    pub ingest_way: bool,
    pub ingest_relation: bool,
    /// Grid of the optimizing pass after ingest, if any.
    pub optimize: Option<(usize, usize)>,
}

impl Default for IngestOptions {
    fn default() -> (r: IngestOptions)
        ensures
            r.channel_size == 500,
            r.way_batch_size == 10_000_000,
            r.relation_batch_size == 1_000_000,
            r.ingest_node && r.ingest_way && r.ingest_relation,
            r.optimize is None,
    {
        IngestOptions {
            channel_size: 500,
            way_batch_size: 10_000_000,
            relation_batch_size: 1_000_000,
            ingest_node: true,
            ingest_way: true,
            ingest_relation: true,
            optimize: None,
        }
    }
}

/// The number that an external id gives each kind.
pub open spec fn kind_code(k: Kind) -> nat {
    match k {
        Kind::Node => 0,
        Kind::Way => 1,
        Kind::Relation => 2,
    }
}

/// The external id of the element `osm_id` of kind `kind`: `osm_id * 3 + kind`.
/// Dividing by three gives back the OSM id, the remainder the kind.
pub fn external_id(osm_id: u64, kind: Kind) -> (r: u64)
    requires
        osm_id * 3 + 2 <= u64::MAX,
    ensures
        r == osm_id * 3 + kind_code(kind),
        r / 3 == osm_id,
        r % 3 == kind_code(kind),
{
    let k: u64 = match kind {
        Kind::Node => 0,
        Kind::Way => 1,
        Kind::Relation => 2,
    };
    osm_id * 3 + k
}

/// A bounding box: smallest and largest longitude and latitude.
#[derive(Debug, Clone, Copy, PartialEq, Eq, Structural)]
pub struct BBox {
    pub xmin: i32,
    pub ymin: i32,
    pub xmax: i32,
    pub ymax: i32,
}

/// `b` grown to hold `p`; the box of `p` alone when there is no `b`.
pub open spec fn grow(b: Option<BBox>, p: Pos) -> BBox {
    match b {
        None => BBox { xmin: p.0, ymin: p.1, xmax: p.0, ymax: p.1 },
        Some(b) => BBox {
            xmin: if p.0 < b.xmin { p.0 } else { b.xmin },
            ymin: if p.1 < b.ymin { p.1 } else { b.ymin },
            xmax: if p.0 > b.xmax { p.0 } else { b.xmax },
            ymax: if p.1 > b.ymax { p.1 } else { b.ymax },
        },
    }
}

/// The positions that `deps` has for the refs of `refs`, keyed by ref.
pub open spec fn resolved(refs: Seq<i64>, deps: Map<i64, Pos>) -> Map<u64, Pos>
    decreases refs.len(),
{
    if refs.len() == 0 {
        Map::empty()
    } else {
        let m = resolved(refs.drop_last(), deps);
        let r = refs.last();
        if deps.contains_key(r) {
            m.insert(r as u64, deps[r])
        } else {
            m
        }
    }
}

/// The bounding box of the positions that `deps` has for the refs of `refs`.
pub open spec fn bbox_of(refs: Seq<i64>, deps: Map<i64, Pos>) -> Option<BBox>
    decreases refs.len(),
{
    if refs.len() == 0 {
        None
    } else {
        let b = bbox_of(refs.drop_last(), deps);
        let r = refs.last();
        if deps.contains_key(r) {
            Some(grow(b, deps[r]))
        } else {
            b
        }
    }
}

/// The positions known for the refs of a way, keyed by node id; refs with no
/// known position are left out.
pub fn way_positions(refs: &Vec<i64>, deps: &HashMap<i64, Pos>) -> (r: HashMap<u64, Pos>)
    ensures
        r@ == resolved(refs@, deps@),
{
    let mut out: HashMap<u64, Pos> = HashMap::new();
    let mut i: usize = 0;
    while i < refs.len()
        invariant
            i <= refs@.len(),
            out@ == resolved(refs@.take(i as int), deps@),
        decreases refs@.len() - i,
    {
        let r = refs[i];
        proof {
            assert(refs@.take(i + 1).drop_last() =~= refs@.take(i as int));
        }
        match deps.get(&r) {
            Some(p) => {
                out.insert(r as u64, *p);
            },
            None => {},
        }
        i = i + 1;
    }
    assert(refs@.take(i as int) =~= refs@);
    out
}

/// The bounding box of the known positions of a way's refs; `None` when none
/// is known.
pub fn way_bbox(refs: &Vec<i64>, deps: &HashMap<i64, Pos>) -> (r: Option<BBox>)
    ensures
        r == bbox_of(refs@, deps@),
{
    let mut b: Option<BBox> = None;
    let mut i: usize = 0;
    while i < refs.len()
        invariant
            i <= refs@.len(),
            b == bbox_of(refs@.take(i as int), deps@),
        decreases refs@.len() - i,
    {
        let r = refs[i];
        proof {
            assert(refs@.take(i + 1).drop_last() =~= refs@.take(i as int));
        }
        match deps.get(&r) {
            Some(p) => {
                let (x, y) = *p;
                b = Some(
                    match b {
                        None => BBox { xmin: x, ymin: y, xmax: x, ymax: y },
                        Some(c) => BBox {
                            xmin: if x < c.xmin { x } else { c.xmin },
                            ymin: if y < c.ymin { y } else { c.ymin },
                            xmax: if x > c.xmax { x } else { c.xmax },
                            ymax: if y > c.ymax { y } else { c.ymax },
                        },
                    },
                );
            },
            None => {},
        }
        i = i + 1;
    }
    assert(refs@.take(i as int) =~= refs@);
    b
}

/// The stored point of a box: an interval on each axis.
pub open spec fn bbox_point(b: BBox) -> Point {
    Point { x: Coord::Interval(b.xmin, b.xmax), y: Coord::Interval(b.ymin, b.ymax) }
}

proof fn lemma_bbox_some(refs: Seq<i64>, deps: Map<i64, Pos>)
    ensures
        resolved(refs, deps).dom().len() > 0 ==> bbox_of(refs, deps) is Some,
        resolved(refs, deps).dom().finite(),
    decreases refs.len(),
{
    if refs.len() > 0 {
        lemma_bbox_some(refs.drop_last(), deps);
    } else {
        assert(resolved(refs, deps).dom() =~= Set::<u64>::empty());
    }
}

/// What a way needs to be encoded and stored: the positions of its refs and
/// the point of its bounding box. `None` when the way is dropped: its feature
/// type is the `place_other` sentinel, or fewer than two of its nodes have a
/// known position.
pub fn way_geometry(
    feature_type: u64,
    place_other: u64,
    refs: &Vec<i64>,
    deps: &HashMap<i64, Pos>,
) -> (r: Option<(HashMap<u64, Pos>, Point)>)
    ensures
        feature_type == place_other ==> r is None,
        feature_type != place_other ==> match r {
            None => resolved(refs@, deps@).dom().len() <= 1,
            Some((m, p)) => resolved(refs@, deps@).dom().len() > 1 && m@ == resolved(refs@, deps@)
                && (bbox_of(refs@, deps@) matches Some(b) && p == bbox_point(b)),
        },
{
    if feature_type == place_other {
        return None;
    }
    let pdeps = way_positions(refs, deps);
    if pdeps.len() <= 1 {
        return None;
    }
    proof {
        lemma_bbox_some(refs@, deps@);
    }
    match way_bbox(refs, deps) {
        Some(b) => Some(
            (pdeps, Point { x: Coord::Interval(b.xmin, b.xmax), y: Coord::Interval(b.ymin, b.ymax) }),
        ),
        None => None,
    }
}

/// The stored point of a node: a scalar on each axis.
pub fn node_point(pos: Pos) -> (r: Point)
    ensures
        r == (Point { x: Coord::Scalar(pos.0), y: Coord::Scalar(pos.1) }),
{
    Point { x: Coord::Scalar(pos.0), y: Coord::Scalar(pos.1) }
}

/// The stored point of a node, or `None` when the node is dropped because its
/// feature type is the `place_other` sentinel.
pub fn node_geometry(feature_type: u64, place_other: u64, pos: Pos) -> (r: Option<Point>)
    ensures
        feature_type == place_other ==> r is None,
        feature_type != place_other ==> r == Some(
            Point { x: Coord::Scalar(pos.0), y: Coord::Scalar(pos.1) },
        ),
{
    if feature_type == place_other {
        None
    } else {
        Some(node_point(pos))
    }
}

/// The insert of an encoded feature at `point`; `None` when the encoder gave
/// no bytes, meaning no valid geometry.
pub fn insert_row(point: Point, encoded: Vec<u8>) -> (r: Option<Row>)
    ensures
        encoded@.len() == 0 ==> r is None,
        encoded@.len() > 0 ==> match r {
            Some(Row::Insert(p, v)) => p == point && v.data@ == encoded@,
            _ => false,
        },
{
    if encoded.len() == 0 {
        None
    } else {
        Some(Row::Insert(point, V::new(encoded)))
    }
}

/// What a relation member is.
#[derive(Debug, Clone, Copy, PartialEq, Eq, Structural)]
pub enum MemberType {
    Node,
    Way,
    Relation,
}

/// A member's role in a multipolygon.
#[derive(Debug, Clone, Copy, PartialEq, Eq, Structural)]
pub enum Role {
    Outer,
    Inner,
    Other,
}

/// A relation member.
#[derive(Debug, Clone, Copy, PartialEq, Eq, Structural)]
pub struct Member {
    pub id: i64,
    pub member_type: MemberType,
    pub role: Role,
}

/// The member is a way with an outer or inner role.
pub open spec fn is_ring(m: Member) -> bool {
    m.member_type == MemberType::Way && (m.role == Role::Outer || m.role == Role::Inner)
}

/// The members that make up a multipolygon: ways with an outer or inner role,
/// in order.
pub fn ring_members(members: &Vec<Member>) -> (r: Vec<Member>)
    ensures
        r@ == members@.filter(|m: Member| is_ring(m)),
{
    let mut out: Vec<Member> = Vec::new();
    let mut i: usize = 0;
    while i < members.len()
        invariant
            i <= members@.len(),
            out@ == members@.take(i as int).filter(|m: Member| is_ring(m)),
        decreases members@.len() - i,
    {
        let m = members[i];
        proof {
            assert(members@.take(i + 1).drop_last() =~= members@.take(i as int));
            reveal(Seq::filter);
        }
        if m.member_type == MemberType::Way && (m.role == Role::Outer || m.role == Role::Inner) {
            out.push(m);
        }
        i = i + 1;
    }
    assert(members@.take(i as int) =~= members@);
    out
}

/// A ring member as a relation record stores it: `way_id * 2`, plus one for
/// an inner ring.
pub open spec fn member_code(m: Member) -> u64 {
    (m.id * 2 + if m.role == Role::Inner { 1int } else { 0int }) as u64
}

/// The codes of the ring members of `members`, in order.
pub fn member_codes(members: &Vec<Member>) -> (r: Vec<u64>)
    requires
        forall|i: int| 0 <= i < members@.len() && is_ring(#[trigger] members@[i]) ==> 0 <= members@[i].id
            && members@[i].id * 2 + 1 <= u64::MAX,
    ensures
        r@ == members@.filter(|m: Member| is_ring(m)).map_values(|m: Member| member_code(m)),
{
    let mut out: Vec<u64> = Vec::new();
    let mut i: usize = 0;
    while i < members.len()
        invariant
            i <= members@.len(),
            out@ == members@.take(i as int).filter(|m: Member| is_ring(m)).map_values(|m: Member| member_code(m)),
            forall|j: int| 0 <= j < members@.len() && is_ring(#[trigger] members@[j]) ==> 0 <= members@[j].id
                && members@[j].id * 2 + 1 <= u64::MAX,
        decreases members@.len() - i,
    {
        let m = members[i];
        proof {
            assert(members@.take(i + 1).drop_last() =~= members@.take(i as int));
            reveal(Seq::filter);
        }
        if m.member_type == MemberType::Way && (m.role == Role::Outer || m.role == Role::Inner) {
            assert(is_ring(members@[i as int]));
            let code = if m.role == Role::Inner {
                (m.id as u64) * 2 + 1
            } else {
                (m.id as u64) * 2
            };
            let ghost before = out@;
            out.push(code);
            proof {
                let f = |m: Member| is_ring(m);
                let g = |m: Member| member_code(m);
                assert(members@.take(i + 1).filter(f) == members@.take(i as int).filter(f).push(m));
                assert(members@.take(i as int).filter(f).push(m).map_values(g) =~= members@.take(i as int).filter(f).map_values(g).push(g(m)));
            }
        } else {
            proof {
                let f = |m: Member| is_ring(m);
                assert(members@.take(i + 1).filter(f) == members@.take(i as int).filter(f));
            }
        }
        i = i + 1;
    }
    assert(members@.take(i as int) =~= members@);
    out
}

/// The node refs of the member ways that `way_deps` has, one way after the
/// other, in member order.
pub open spec fn member_refs(members: Seq<Member>, way_deps: Map<i64, Vec<i64>>) -> Seq<i64>
    decreases members.len(),
{
    if members.len() == 0 {
        Seq::empty()
    } else {
        let rest = member_refs(members.drop_last(), way_deps);
        let id = members.last().id;
        if way_deps.contains_key(id) {
            rest + way_deps[id]@
        } else {
            rest
        }
    }
}

/// The node refs of every member way that `way_deps` has, in member order.
pub fn relation_refs(members: &Vec<Member>, way_deps: &HashMap<i64, Vec<i64>>) -> (r: Vec<i64>)
    ensures
        r@ == member_refs(members@, way_deps@),
{
    let mut out: Vec<i64> = Vec::new();
    let mut i: usize = 0;
    while i < members.len()
        invariant
            i <= members@.len(),
            out@ == member_refs(members@.take(i as int), way_deps@),
        decreases members@.len() - i,
    {
        proof {
            assert(members@.take(i + 1).drop_last() =~= members@.take(i as int));
        }
        match way_deps.get(&members[i].id) {
            Some(refs) => {
                let ghost o0 = out@;
                let mut j: usize = 0;
                while j < refs.len()
                    invariant
                        j <= refs@.len(),
                        out@ == o0 + refs@.take(j as int),
                    decreases refs@.len() - j,
                {
                    out.push(refs[j]);
                    assert(refs@.take(j + 1) =~= refs@.take(j as int).push(refs@[j as int]));
                    j = j + 1;
                }
                assert(refs@.take(j as int) =~= refs@);
            },
            None => {},
        }
        i = i + 1;
    }
    assert(members@.take(i as int) =~= members@);
    out
}

/// What a multipolygon relation needs to be encoded and stored: the positions
/// of the nodes of its member ways and the point of their bounding box.
/// `None` when it is dropped: its feature type is the `place_other` sentinel,
/// or fewer than two of those nodes have a known position.
pub fn relation_geometry(
    feature_type: u64,
    place_other: u64,
    members: &Vec<Member>,
    way_deps: &HashMap<i64, Vec<i64>>,
    node_deps: &HashMap<i64, Pos>,
) -> (r: Option<(HashMap<u64, Pos>, Point)>)
    ensures
        feature_type == place_other ==> r is None,
        feature_type != place_other ==> ({
            let refs = member_refs(members@, way_deps@);
            match r {
                None => resolved(refs, node_deps@).dom().len() <= 1,
                Some((m, p)) => resolved(refs, node_deps@).dom().len() > 1 && m@ == resolved(
                    refs,
                    node_deps@,
                ) && (bbox_of(refs, node_deps@) matches Some(b) && p == bbox_point(b)),
            }
        }),
{
    let refs = relation_refs(members, way_deps);
    way_geometry(feature_type, place_other, &refs, node_deps)
}

/// The node refs of all ways of `ways`, one way after the other.
pub open spec fn all_refs(ways: Seq<(i64, Vec<i64>)>) -> Seq<i64>
    decreases ways.len(),
{
    if ways.len() == 0 {
        Seq::empty()
    } else {
        all_refs(ways.drop_last()) + ways.last().1@
    }
}

/// The node blobs to read for a batch of ways: each blob that may hold a node
/// that one of the ways refers to, once, as `(offset, byte_len)`.
pub fn get_node_offsets_from_ways(table: &ScanTable, ways: &Vec<(i64, Vec<i64>)>) -> (r: Vec<(u64, usize)>)
    ensures
        covers_ids(r@, table.of_kind(Kind::Node), all_refs(ways@)),
{
    let mut ids: Vec<i64> = Vec::new();
    let mut i: usize = 0;
    while i < ways.len()
        invariant
            i <= ways@.len(),
            ids@ == all_refs(ways@.take(i as int)),
        decreases ways@.len() - i,
    {
        let refs = &ways[i].1;
        let ghost before = ids@;
        let mut j: usize = 0;
        while j < refs.len()
            invariant
                j <= refs@.len(),
                ids@ == before + refs@.take(j as int),
            decreases refs@.len() - j,
        {
            ids.push(refs[j]);
            assert(refs@.take(j + 1) =~= refs@.take(j as int).push(refs@[j as int]));
            j = j + 1;
        }
        proof {
            assert(refs@.take(j as int) =~= refs@);
            assert(ways@.take(i + 1).drop_last() =~= ways@.take(i as int));
        }
        i = i + 1;
    }
    assert(ways@.take(i as int) =~= ways@);
    offsets_for_ids(table, Kind::Node, &ids)
}

/// The ids of the ring members of `members`, in order.
pub open spec fn ring_ids(members: Seq<Member>) -> Seq<i64> {
    members.filter(|m: Member| is_ring(m)).map_values(|m: Member| m.id)
}

/// The way blobs to read for the members of a batch of relations: each blob
/// that may hold a way that is an outer or inner member, once, as
/// `(offset, byte_len)`.
pub fn get_way_offsets_from_relations(table: &ScanTable, members: &Vec<Member>) -> (r: Vec<(u64, usize)>)
    ensures
        covers_ids(r@, table.of_kind(Kind::Way), ring_ids(members@)),
{
    let rings = ring_members(members);
    let mut ids: Vec<i64> = Vec::new();
    let mut i: usize = 0;
    while i < rings.len()
        invariant
            i <= rings@.len(),
            ids@ == rings@.take(i as int).map_values(|m: Member| m.id),
        decreases rings@.len() - i,
    {
        ids.push(rings[i].id);
        assert(rings@.take(i + 1).map_values(|m: Member| m.id) =~= rings@.take(i as int).map_values(|m: Member| m.id).push(rings@[i as int].id));
        i = i + 1;
    }
    assert(rings@.take(i as int) =~= rings@);
    offsets_for_ids(table, Kind::Way, &ids)
}

/// Some tag of `tags` is `type=multipolygon`.
pub open spec fn has_multipolygon_tag(tags: Seq<(String, String)>) -> bool {
    exists|i: int|
        0 <= i < tags.len() && (#[trigger] tags[i]).0@ == seq!['t', 'y', 'p', 'e'] && tags[i].1@ == seq![
            'm', 'u', 'l', 't', 'i', 'p', 'o', 'l', 'y', 'g', 'o', 'n',
        ]
}

/// Relies on `osm_is_area::relation`: a relation is an area exactly when it
/// has a member and a tag `type=multipolygon`.
#[verifier::external_body]
fn relation_is_area(tags: &Vec<(String, String)>, members: &Vec<Member>) -> (r: bool)
    ensures
        r == (members@.len() > 0 && has_multipolygon_tag(tags@)),
{
    let t: Vec<(&str, &str)> = tags.iter().map(|(k, v)| (k.as_str(), v.as_str())).collect();
    osm_is_area::relation(&t, members)
}

/// What a relation needs to be stored as an area: its ring members, the
/// positions of the nodes of those ways and the point of their bounding box.
/// `None` when it is dropped: it is no multipolygon with a ring member, or
/// `relation_geometry` drops it.
pub fn multipolygon_geometry(
    feature_type: u64,
    place_other: u64,
    tags: &Vec<(String, String)>,
    members: &Vec<Member>,
    way_deps: &HashMap<i64, Vec<i64>>,
    node_deps: &HashMap<i64, Pos>,
) -> (r: Option<(Vec<Member>, HashMap<u64, Pos>, Point)>)
    ensures
        ({
            let rings = members@.filter(|m: Member| is_ring(m));
            let refs = member_refs(rings, way_deps@);
            match r {
                None => rings.len() == 0 || !has_multipolygon_tag(tags@) || feature_type == place_other
                    || resolved(refs, node_deps@).dom().len() <= 1,
                Some((rs, m, p)) => rings.len() > 0 && has_multipolygon_tag(tags@) && feature_type
                    != place_other && rs@ == rings && resolved(refs, node_deps@).dom().len() > 1 && m@
                    == resolved(refs, node_deps@) && (bbox_of(refs, node_deps@) matches Some(b) && p
                    == bbox_point(b)),
            }
        }),
{
    let rings = ring_members(members);
    if !relation_is_area(tags, &rings) {
        return None;
    }
    match relation_geometry(feature_type, place_other, &rings, way_deps, node_deps) {
        None => None,
        Some((m, p)) => Some((rings, m, p)),
    }
}

/// The smallest box holding both boxes that are there.
pub open spec fn merge_boxes(a: Option<BBox>, b: Option<BBox>) -> Option<BBox> {
    match (a, b) {
        (None, _) => b,
        (_, None) => a,
        (Some(x), Some(y)) => Some(union_box(x, y)),
    }
}

/// The boxes of the ring ways that `way_deps` has, merged in member order.
pub open spec fn ring_boxes(rings: Seq<Member>, way_deps: Map<i64, Vec<i64>>, deps: Map<i64, Pos>) -> Option<BBox>
    decreases rings.len(),
{
    if rings.len() == 0 {
        None
    } else {
        let rest = ring_boxes(rings.drop_last(), way_deps, deps);
        let id = rings.last().id;
        if way_deps.contains_key(id) {
            merge_boxes(rest, bbox_of(way_deps[id]@, deps))
        } else {
            rest
        }
    }
}

proof fn lemma_bbox_concat(a: Seq<i64>, b: Seq<i64>, deps: Map<i64, Pos>)
    ensures
        bbox_of(a + b, deps) == merge_boxes(bbox_of(a, deps), bbox_of(b, deps)),
    decreases b.len(),
{
    if b.len() == 0 {
        assert(a + b =~= a);
    } else {
        assert((a + b).drop_last() =~= a + b.drop_last());
        lemma_bbox_concat(a, b.drop_last(), deps);
    }
}

/// The box of a multipolygon, over the nodes of all its ring ways, is the
/// union of the boxes of the ring ways one by one: an inner ring inside the
/// outer one leaves the outer ring's box.
pub proof fn lemma_relation_box_is_union(rings: Seq<Member>, way_deps: Map<i64, Vec<i64>>, deps: Map<i64, Pos>)
    ensures
        bbox_of(member_refs(rings, way_deps), deps) == ring_boxes(rings, way_deps, deps),
    decreases rings.len(),
{
    if rings.len() > 0 {
        lemma_relation_box_is_union(rings.drop_last(), way_deps, deps);
        let id = rings.last().id;
        if way_deps.contains_key(id) {
            lemma_bbox_concat(member_refs(rings.drop_last(), way_deps), way_deps[id]@, deps);
        }
    } else {
        assert(member_refs(rings, way_deps) =~= Seq::<i64>::empty());
    }
}

} // verus!
