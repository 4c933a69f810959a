use vstd::prelude::*;
use vstd::multiset::Multiset;
use crate::rows::BBox;
use crate::store::{Coord, Point};

verus! {

broadcast use vstd::seq_lib::group_to_multiset_ensures, vstd::seq_lib::lemma_multiset_commutative;

/// How many times a bucket may be split.
pub const DEPTH_LIMIT: usize = 30;

/// The indices held by the buckets of `s`, one bucket after the other.
pub open spec fn items_of(s: Seq<(BBox, Vec<usize>)>) -> Seq<usize>
    decreases s.len(),
{
    if s.len() == 0 {
        Seq::empty()
    } else {
        items_of(s.drop_last()) + s.last().1@
    }
}

/// No bucket of `s` is empty.
pub open spec fn all_filled(s: Seq<(BBox, Vec<usize>)>) -> bool {
    forall|k: int| 0 <= k < s.len() ==> (#[trigger] s[k]).1@.len() > 0
}

/// `b` is a box: its smallest coordinates are not above its largest.
pub open spec fn valid_box(b: BBox) -> bool {
    b.xmin <= b.xmax && b.ymin <= b.ymax
}

/// `a` lies within `b`.
pub open spec fn within(a: BBox, b: BBox) -> bool {
    b.xmin <= a.xmin && a.xmax <= b.xmax && b.ymin <= a.ymin && a.ymax <= b.ymax
}

/// The middle of `lo` and `hi`, rounded down.
pub open spec fn mid_spec(lo: i32, hi: i32) -> i32 {
    if lo <= hi {
        (lo + (hi - lo) / 2) as i32
    } else {
        lo
    }
}

/// Quarter `q` of `b`: 0 and 1 the lower half, left then right, 2 and 3 the
/// upper half.
pub open spec fn quarter(b: BBox, q: int) -> BBox {
    let xm = mid_spec(b.xmin, b.xmax);
    let ym = mid_spec(b.ymin, b.ymax);
    if q == 0 {
        BBox { xmin: b.xmin, ymin: b.ymin, xmax: xm, ymax: ym }
    } else if q == 1 {
        BBox { xmin: xm, ymin: b.ymin, xmax: b.xmax, ymax: ym }
    } else if q == 2 {
        BBox { xmin: b.xmin, ymin: ym, xmax: xm, ymax: b.ymax }
    } else {
        BBox { xmin: xm, ymin: ym, xmax: b.xmax, ymax: b.ymax }
    }
}

/// `a` lies within one of the quarters of `b`.
pub open spec fn in_quarter(a: BBox, b: BBox) -> bool {
    within(a, quarter(b, 0)) || within(a, quarter(b, 1)) || within(a, quarter(b, 2)) || within(
        a,
        quarter(b, 3),
    )
}

/// The buckets that `new` holds past those of `old`, which it keeps, lie within `b`.
pub open spec fn added_within(old: Seq<(BBox, Vec<usize>)>, new: Seq<(BBox, Vec<usize>)>, b: BBox) -> bool {
    &&& old.len() <= new.len()
    &&& forall|k: int| 0 <= k < old.len() ==> new[k] == old[k]
    &&& valid_box(b) ==> forall|k: int| old.len() <= k < new.len() ==> within(#[trigger] new[k].0, b)
}

/// How much of `p` lies in `b`: 1 for a point inside, the area of the common
/// part for a box, 0 otherwise.
pub open spec fn overlap_spec(b: BBox, p: Point) -> int {
    match (p.x, p.y) {
        (Coord::Scalar(x), Coord::Scalar(y)) => if b.xmin <= x <= b.xmax && b.ymin <= y <= b.ymax {
            1
        } else {
            0
        },
        (Coord::Interval(x0, x1), Coord::Interval(y0, y1)) => {
            let hx: int = if x1 < b.xmax { x1 as int } else { b.xmax as int };
            let lx: int = if x0 > b.xmin { x0 as int } else { b.xmin as int };
            let hy: int = if y1 < b.ymax { y1 as int } else { b.ymax as int };
            let ly: int = if y0 > b.ymin { y0 as int } else { b.ymin as int };
            if b.xmin > x1 || b.xmax < x0 || b.ymin > y1 || b.ymax < y0 || hx < lx || hy < ly {
                0
            } else {
                (hx - lx) * (hy - ly)
            }
        },
        _ => 0,
    }
}

/// The quarter of `b` that overlaps `p` most; the first of them on a tie, and
/// quarter 0 when none overlaps it.
pub open spec fn best_quarter(b: BBox, p: Point) -> int {
    let a0 = overlap_spec(quarter(b, 0), p);
    let a1 = overlap_spec(quarter(b, 1), p);
    let a2 = overlap_spec(quarter(b, 2), p);
    let a3 = overlap_spec(quarter(b, 3), p);
    let m1: (int, int) = if a1 > a0 { (1, a1) } else { (0, a0) };
    let m2: (int, int) = if a2 > m1.1 { (2, a2) } else { m1 };
    let m3: (int, int) = if a3 > m2.1 { (3, a3) } else { m2 };
    m3.0
}

/// The entries of `idx` whose points go to quarter `q` of `b`, in order.
pub open spec fn part(b: BBox, idx: Seq<usize>, points: Seq<Point>, q: int) -> Seq<usize> {
    idx.filter(|i: usize| best_quarter(b, points[i as int]) == q)
}

/// The buckets that the bucket `idx` of box `bbox` becomes at split depth
/// `depth`, where its parent held `parent_len` entries: none when it is
/// empty; itself when it holds at most `n` entries, reached the depth limit,
/// or is as large as its parent; else what its four quarters become, each
/// point going to the quarter that overlaps it most.
pub open spec fn settle_spec(
    n: nat,
    depth: nat,
    bbox: BBox,
    idx: Seq<usize>,
    parent_len: nat,
    points: Seq<Point>,
) -> Seq<(BBox, Seq<usize>)>
    decreases DEPTH_LIMIT - depth,
{
    if idx.len() == 0 {
        Seq::empty()
    } else if idx.len() <= n || depth >= DEPTH_LIMIT || idx.len() == parent_len {
        seq![(bbox, idx)]
    } else {
        settle_spec(n, depth + 1, quarter(bbox, 0), part(bbox, idx, points, 0), idx.len(), points)
            + settle_spec(n, depth + 1, quarter(bbox, 1), part(bbox, idx, points, 1), idx.len(), points)
            + settle_spec(n, depth + 1, quarter(bbox, 2), part(bbox, idx, points, 2), idx.len(), points)
            + settle_spec(n, depth + 1, quarter(bbox, 3), part(bbox, idx, points, 3), idx.len(), points)
    }
}

/// The indices of all of `count` points, in order.
pub open spec fn all_indices(count: nat) -> Seq<usize> {
    Seq::new(count, |i: int| i as usize)
}

/// The buckets of `divide`: the one bucket of every point, in `bbox`, when
/// there are at most `n`; otherwise what splitting that bucket gives.
pub open spec fn divide_spec(n: nat, bbox: BBox, points: Seq<Point>) -> Seq<(BBox, Seq<usize>)> {
    if points.len() <= n {
        seq![(bbox, all_indices(points.len()))]
    } else {
        settle_spec(n, 0, bbox, all_indices(points.len()), 0, points)
    }
}

/// Each bucket's box and entries.
pub open spec fn buckets_view(s: Seq<(BBox, Vec<usize>)>) -> Seq<(BBox, Seq<usize>)> {
    s.map_values(|b: (BBox, Vec<usize>)| (b.0, b.1@))
}

fn overlap_area(b: BBox, p: Point) -> (r: i128)
    ensures
        r >= 0,
        r == overlap_spec(b, p),
{
    match (p.x, p.y) {
        (Coord::Scalar(x), Coord::Scalar(y)) => {
            if b.xmin <= x && x <= b.xmax && b.ymin <= y && y <= b.ymax {
                1
            } else {
                0
            }
        },
        (Coord::Interval(x0, x1), Coord::Interval(y0, y1)) => {
            if b.xmin > x1 || b.xmax < x0 || b.ymin > y1 || b.ymax < y0 {
                return 0;
            }
            let hx = if x1 < b.xmax { x1 } else { b.xmax };
            let lx = if x0 > b.xmin { x0 } else { b.xmin };
            let hy = if y1 < b.ymax { y1 } else { b.ymax };
            let ly = if y0 > b.ymin { y0 } else { b.ymin };
            if hx < lx || hy < ly {
                return 0;
            }
            let w = hx as i128 - lx as i128;
            let h = hy as i128 - ly as i128;
            assert(0 <= w * h <= 0x1_0000_0000 * 0x1_0000_0000) by (nonlinear_arith)
                requires
                    0 <= w <= 0x1_0000_0000,
                    0 <= h <= 0x1_0000_0000,
            ;
            w * h
        },
        _ => 0,
    }
}

/// The middle of `lo` and `hi`.
fn mid(lo: i32, hi: i32) -> (r: i32)
    ensures
        r == mid_spec(lo, hi),
        lo <= hi ==> lo <= r <= hi,
{
    if lo <= hi {
        (lo as i64 + (hi as i64 - lo as i64) / 2) as i32
    } else {
        lo
    }
}

fn push_bucket(out: &mut Vec<(BBox, Vec<usize>)>, b: BBox, idx: Vec<usize>)
    requires
        idx@.len() > 0,
        all_filled(old(out)@),
    ensures
        all_filled(final(out)@),
        final(out)@.len() == old(out)@.len() + 1,
        final(out)@.drop_last() == old(out)@,
        final(out)@.last() == (b, idx),
        items_of(final(out)@).to_multiset() == items_of(old(out)@).to_multiset().add(idx@.to_multiset()),
{
    let ghost s = idx@;
    out.push((b, idx));
    proof {
        assert(out@.drop_last() =~= old(out)@);
        assert(items_of(out@) == items_of(old(out)@) + s);
    }
}

/// Places the bucket `idx` of box `bbox` at split depth `depth`, as
/// `settle_spec` says.
#[verifier::rlimit(60)]
fn settle(
    n: usize,
    depth: usize,
    bbox: BBox,
    idx: Vec<usize>,
    parent_len: usize,
    points: &Vec<Point>,
    out: &mut Vec<(BBox, Vec<usize>)>,
)
    requires
        depth <= DEPTH_LIMIT,
        forall|k: int| 0 <= k < idx@.len() ==> #[trigger] idx@[k] < points@.len(),
        all_filled(old(out)@),
    ensures
        all_filled(final(out)@),
        buckets_view(final(out)@) == buckets_view(old(out)@) + settle_spec(
            n as nat,
            depth as nat,
            bbox,
            idx@,
            parent_len as nat,
            points@,
        ),
        items_of(final(out)@).to_multiset() == items_of(old(out)@).to_multiset().add(idx@.to_multiset()),
        added_within(old(out)@, final(out)@, bbox),
        idx@.len() > n && depth < DEPTH_LIMIT && idx@.len() != parent_len && valid_box(bbox) ==> forall|k: int|
            old(out)@.len() <= k < final(out)@.len() ==> in_quarter(#[trigger] final(out)@[k].0, bbox),
    decreases DEPTH_LIMIT - depth,
{
    if idx.len() == 0 {
        assert(idx@.to_multiset() =~= Multiset::empty());
        assert(items_of(out@).to_multiset().add(Multiset::empty()) =~= items_of(out@).to_multiset());
        assert(buckets_view(out@) + Seq::empty() =~= buckets_view(out@));
        return;
    }
    if idx.len() <= n || depth >= DEPTH_LIMIT || idx.len() == parent_len {
        let ghost v = idx@;
        push_bucket(out, bbox, idx);
        proof {
            assert(buckets_view(out@) =~= buckets_view(old(out)@) + seq![(bbox, v)]);
        }
        return;
    }
    let xm = mid(bbox.xmin, bbox.xmax);
    let ym = mid(bbox.ymin, bbox.ymax);
    let q0 = BBox { xmin: bbox.xmin, ymin: bbox.ymin, xmax: xm, ymax: ym };
    let q1 = BBox { xmin: xm, ymin: bbox.ymin, xmax: bbox.xmax, ymax: ym };
    let q2 = BBox { xmin: bbox.xmin, ymin: ym, xmax: xm, ymax: bbox.ymax };
    let q3 = BBox { xmin: xm, ymin: ym, xmax: bbox.xmax, ymax: bbox.ymax };
    proof {
        assert(q0 == quarter(bbox, 0) && q1 == quarter(bbox, 1) && q2 == quarter(bbox, 2) && q3 == quarter(bbox, 3));
    }
    let mut b0: Vec<usize> = Vec::new();
    let mut b1: Vec<usize> = Vec::new();
    let mut b2: Vec<usize> = Vec::new();
    let mut b3: Vec<usize> = Vec::new();
    let mut k: usize = 0;
    proof {
        reveal(Seq::filter);
        assert(idx@.take(0) =~= Seq::<usize>::empty());
        assert(part(bbox, idx@.take(0), points@, 0) =~= Seq::<usize>::empty());
        assert(part(bbox, idx@.take(0), points@, 1) =~= Seq::<usize>::empty());
        assert(part(bbox, idx@.take(0), points@, 2) =~= Seq::<usize>::empty());
        assert(part(bbox, idx@.take(0), points@, 3) =~= Seq::<usize>::empty());
    }
    while k < idx.len()
        invariant
            k <= idx@.len(),
            q0 == quarter(bbox, 0) && q1 == quarter(bbox, 1) && q2 == quarter(bbox, 2) && q3 == quarter(bbox, 3),
            forall|j: int| 0 <= j < idx@.len() ==> #[trigger] idx@[j] < points@.len(),
            forall|j: int| 0 <= j < b0@.len() ==> #[trigger] b0@[j] < points@.len(),
            forall|j: int| 0 <= j < b1@.len() ==> #[trigger] b1@[j] < points@.len(),
            forall|j: int| 0 <= j < b2@.len() ==> #[trigger] b2@[j] < points@.len(),
            forall|j: int| 0 <= j < b3@.len() ==> #[trigger] b3@[j] < points@.len(),
            b0@ == part(bbox, idx@.take(k as int), points@, 0),
            b1@ == part(bbox, idx@.take(k as int), points@, 1),
            b2@ == part(bbox, idx@.take(k as int), points@, 2),
            b3@ == part(bbox, idx@.take(k as int), points@, 3),
            b0@.to_multiset().add(b1@.to_multiset()).add(b2@.to_multiset()).add(b3@.to_multiset())
                == idx@.take(k as int).to_multiset(),
        decreases idx@.len() - k,
    {
        let i = idx[k];
        let p = points[i];
        let a0 = overlap_area(q0, p);
        let a1 = overlap_area(q1, p);
        let a2 = overlap_area(q2, p);
        let a3 = overlap_area(q3, p);
        let mut best: usize = 0;
        let mut best_area: i128 = 0;
        if a0 > best_area {
            best_area = a0;
        }
        if a1 > best_area {
            best = 1;
            best_area = a1;
        }
        if a2 > best_area {
            best = 2;
            best_area = a2;
        }
        if a3 > best_area {
            best = 3;
        }
        proof {
            assert(best as int == best_quarter(bbox, points@[i as int]));
            assert(idx@.take(k + 1) =~= idx@.take(k as int).push(i));
            reveal(Seq::filter);
            assert(idx@.take(k + 1).drop_last() =~= idx@.take(k as int));
        }
        if best == 0 {
            b0.push(i);
        } else if best == 1 {
            b1.push(i);
        } else if best == 2 {
            b2.push(i);
        } else {
            b3.push(i);
        }
        k = k + 1;
    }
    proof {
        assert(idx@.take(k as int) =~= idx@);
    }
    let len = idx.len();
    let ghost m0 = items_of(out@).to_multiset();
    let ghost s0 = b0@;
    let ghost s1 = b1@;
    let ghost s2 = b2@;
    let ghost s3 = b3@;
    let ghost o0 = out@;
    settle(n, depth + 1, q0, b0, len, points, out);
    let ghost o1 = out@;
    settle(n, depth + 1, q1, b1, len, points, out);
    let ghost o2 = out@;
    settle(n, depth + 1, q2, b2, len, points, out);
    let ghost o3 = out@;
    settle(n, depth + 1, q3, b3, len, points, out);
    proof {
        let sp = |q: int, v: Seq<usize>| settle_spec(n as nat, (depth + 1) as nat, quarter(bbox, q), v, len as nat, points@);
        assert(settle_spec(n as nat, depth as nat, bbox, idx@, parent_len as nat, points@) == sp(0, s0) + sp(1, s1) + sp(2, s2) + sp(3, s3));
        assert(buckets_view(out@) =~= buckets_view(o0) + (sp(0, s0) + sp(1, s1) + sp(2, s2) + sp(3, s3)));
        if valid_box(bbox) {
            assert(valid_box(q0) && valid_box(q1) && valid_box(q2) && valid_box(q3));
            assert(within(q0, bbox) && within(q1, bbox) && within(q2, bbox) && within(q3, bbox));
        }
        assert forall|k: int| 0 <= k < o0.len() implies out@[k] == o0[k] by {
            assert(o1[k] == o0[k]);
            assert(o2[k] == o1[k]);
            assert(o3[k] == o2[k]);
        }
        if valid_box(bbox) {
            assert forall|k: int| o0.len() <= k < out@.len() implies in_quarter(#[trigger] out@[k].0, bbox) && within(out@[k].0, bbox) by {
                if k < o1.len() {
                    assert(o2[k] == o1[k]);
                    assert(o3[k] == o2[k]);
                    assert(out@[k] == o3[k]);
                    assert(within(o1[k].0, q0));
                } else if k < o2.len() {
                    assert(o3[k] == o2[k]);
                    assert(out@[k] == o3[k]);
                    assert(within(o2[k].0, q1));
                } else if k < o3.len() {
                    assert(out@[k] == o3[k]);
                    assert(within(o3[k].0, q2));
                } else {
                    assert(within(out@[k].0, q3));
                }
            }
        }
        assert(items_of(out@).to_multiset() =~= m0.add(s0.to_multiset()).add(s1.to_multiset()).add(s2.to_multiset()).add(
            s3.to_multiset(),
        ));
        assert(items_of(out@).to_multiset() =~= m0.add(idx@.to_multiset()));
    }
}

/// Splits the points of `points`, which lie in `bbox`, quadtree-style, into
/// buckets, and gives each bucket's box and the indices of its points, as
/// `divide_spec` says: at most `n` points stay in one bucket, in `bbox`, even
/// none; a bucket stops splitting when it holds at most `n` entries, reaches
/// the depth limit, or is as large as its parent; and each point of a split
/// bucket goes to the quarter that overlaps it most. Every index lands in
/// exactly one bucket.
pub fn divide(n: usize, bbox: BBox, points: &Vec<Point>) -> (r: Vec<(BBox, Vec<usize>)>)
    ensures
        buckets_view(r@) == divide_spec(n as nat, bbox, points@),
        items_of(r@).to_multiset() == all_indices(points@.len()).to_multiset(),
        points@.len() <= n ==> r@.len() == 1 && r@[0].0 == bbox,
        points@.len() > n ==> all_filled(r@),
        valid_box(bbox) ==> forall|k: int| 0 <= k < r@.len() ==> within(#[trigger] r@[k].0, bbox),
        valid_box(bbox) && points@.len() > n ==> forall|k: int| 0 <= k < r@.len() ==> in_quarter(#[trigger] r@[k].0, bbox),
{
    let mut idx: Vec<usize> = Vec::new();
    let mut i: usize = 0;
    while i < points.len()
        invariant
            i <= points@.len(),
            idx@ == Seq::new(i as nat, |j: int| j as usize),
        decreases points@.len() - i,
    {
        idx.push(i);
        assert(idx@ =~= Seq::new((i + 1) as nat, |j: int| j as usize));
        i = i + 1;
    }
    assert(idx@ =~= all_indices(points@.len()));
    let mut out: Vec<(BBox, Vec<usize>)> = Vec::new();
    assert(items_of(out@) =~= Seq::<usize>::empty());
    assert(items_of(out@).to_multiset() =~= Multiset::empty());
    if idx.len() <= n {
        let ghost v = idx@;
        out.push((bbox, idx));
        proof {
            assert(out@.drop_last() =~= Seq::<(BBox, Vec<usize>)>::empty());
            assert(items_of(out@) =~= v);
            assert(buckets_view(out@) =~= seq![(bbox, v)]);
        }
    } else {
        assert(buckets_view(out@) =~= Seq::<(BBox, Seq<usize>)>::empty());
        settle(n, 0, bbox, idx, 0, points, &mut out);
        assert(buckets_view(out@) =~= divide_spec(n as nat, bbox, points@));
        assert(Multiset::<usize>::empty().add(all_indices(points@.len()).to_multiset()) =~= all_indices(
            points@.len(),
        ).to_multiset());
    }
    out
}

} // verus!
