use vstd::prelude::*;
use std::collections::HashMap;
use crate::rows::BBox;
use crate::store::{Coord, Point};

verus! {

broadcast use vstd::std_specs::hash::group_hash_axioms;

/// The smallest box holding `a` and `b`.
pub open spec fn union_box(a: BBox, b: BBox) -> BBox {
    BBox {
        xmin: if a.xmin < b.xmin { a.xmin } else { b.xmin },
        ymin: if a.ymin < b.ymin { a.ymin } else { b.ymin },
        xmax: if a.xmax > b.xmax { a.xmax } else { b.xmax },
        ymax: if a.ymax > b.ymax { a.ymax } else { b.ymax },
    }
}

/// The smallest box holding every box of `s`; `None` for no box.
pub open spec fn union_all(s: Seq<BBox>) -> Option<BBox>
    decreases s.len(),
{
    if s.len() == 0 {
        None
    } else {
        match union_all(s.drop_last()) {
            None => Some(s.last()),
            Some(b) => Some(union_box(b, s.last())),
        }
    }
}

/// The bounds of the store: the smallest box holding the bounds of every
/// root; `None` when there is no root.
pub fn union_bounds(roots: &Vec<BBox>) -> (r: Option<BBox>)
    ensures
        r == union_all(roots@),
{
    let mut acc: Option<BBox> = None;
    let mut i: usize = 0;
    while i < roots.len()
        invariant
            i <= roots@.len(),
            acc == union_all(roots@.take(i as int)),
        decreases roots@.len() - i,
    {
        proof {
            assert(roots@.take(i + 1).drop_last() =~= roots@.take(i as int));
        }
        let b = roots[i];
        acc = match acc {
            None => Some(b),
            Some(a) => Some(
                BBox {
                    xmin: if a.xmin < b.xmin { a.xmin } else { b.xmin },
                    ymin: if a.ymin < b.ymin { a.ymin } else { b.ymin },
                    xmax: if a.xmax > b.xmax { a.xmax } else { b.xmax },
                    ymax: if a.ymax > b.ymax { a.ymax } else { b.ymax },
                },
            ),
        };
        i = i + 1;
    }
    assert(roots@.take(i as int) =~= roots@);
    acc
}

/// The edge `i` of `divs` equal parts of `[lo, hi]`, rounded down.
pub open spec fn edge(lo: i32, hi: i32, divs: nat, i: nat) -> int {
    lo + ((hi - lo) * i) / (divs as int)
}

fn edge_exec(lo: i32, hi: i32, divs: usize, i: usize) -> (r: i32)
    requires
        lo <= hi,
        0 < divs,
        i <= divs,
    ensures
        r == edge(lo, hi, divs as nat, i as nat),
        lo <= r <= hi,
{
    let span: i128 = hi as i128 - lo as i128;
    assert(0 <= span * (i as i128) <= span * (divs as i128)) by (nonlinear_arith)
        requires
            0 <= span,
            0 <= i <= divs,
    ;
    assert(span * (divs as int) / (divs as int) == span) by (nonlinear_arith)
        requires
            0 < divs,
    ;
    assert(0 <= (span * (i as int)) / (divs as int) <= (span * (divs as int)) / (divs as int)) by (nonlinear_arith)
        requires
            0 <= span * (i as int) <= span * (divs as int),
            0 < divs,
    ;
    assert(span * (i as i128) <= 0x1_0000_0000 * 0x1_0000_0000_0000_0000) by (nonlinear_arith)
        requires
            0 <= span <= 0x1_0000_0000,
            0 <= i <= 0x1_0000_0000_0000_0000,
    ;
    let off = (span * (i as i128)) / (divs as i128);
    (lo as i128 + off) as i32
}

/// The cell in column `ix` and row `iy` of the `xdivs` by `ydivs` grid over
/// `bounds`.
pub open spec fn cell_spec(bounds: BBox, xdivs: nat, ydivs: nat, ix: nat, iy: nat) -> BBox {
    BBox {
        xmin: edge(bounds.xmin, bounds.xmax, xdivs, ix) as i32,
        ymin: edge(bounds.ymin, bounds.ymax, ydivs, iy) as i32,
        xmax: edge(bounds.xmin, bounds.xmax, xdivs, ix + 1) as i32,
        ymax: edge(bounds.ymin, bounds.ymax, ydivs, iy + 1) as i32,
    }
}

/// The cells of an `xdivs` by `ydivs` grid over `bounds`, row by row.
pub fn grid_cells(bounds: BBox, xdivs: usize, ydivs: usize) -> (r: Vec<BBox>)
    requires
        bounds.xmin <= bounds.xmax,
        bounds.ymin <= bounds.ymax,
        xdivs * ydivs <= usize::MAX,
    ensures
        r@.len() == xdivs * ydivs,
        forall|iy: int, ix: int| 0 <= iy < ydivs && 0 <= ix < xdivs ==> #[trigger] r@[iy * xdivs + ix]
            == cell_spec(bounds, xdivs as nat, ydivs as nat, ix as nat, iy as nat),
{
    let mut out: Vec<BBox> = Vec::new();
    let mut iy: usize = 0;
    while iy < ydivs
        invariant
            iy <= ydivs,
            bounds.xmin <= bounds.xmax,
            bounds.ymin <= bounds.ymax,
            xdivs * ydivs <= usize::MAX,
            out@.len() == iy * xdivs,
            forall|y: int, x: int| 0 <= y < iy && 0 <= x < xdivs ==> #[trigger] out@[y * xdivs + x]
                == cell_spec(bounds, xdivs as nat, ydivs as nat, x as nat, y as nat),
        decreases ydivs - iy,
    {
        let mut ix: usize = 0;
        assert(iy * xdivs + xdivs <= xdivs * ydivs) by (nonlinear_arith)
            requires
                iy < ydivs,
        ;
        while ix < xdivs
            invariant
                iy < ydivs,
                ix <= xdivs,
                bounds.xmin <= bounds.xmax,
                bounds.ymin <= bounds.ymax,
                iy * xdivs + xdivs <= usize::MAX,
                out@.len() == iy * xdivs + ix,
                forall|y: int, x: int| 0 <= y < iy && 0 <= x < xdivs ==> #[trigger] out@[y * xdivs + x]
                    == cell_spec(bounds, xdivs as nat, ydivs as nat, x as nat, y as nat),
                forall|x: int| 0 <= x < ix ==> #[trigger] out@[iy * xdivs + x] == cell_spec(
                    bounds,
                    xdivs as nat,
                    ydivs as nat,
                    x as nat,
                    iy as nat,
                ),
            decreases xdivs - ix,
        {
            let cell = BBox {
                xmin: edge_exec(bounds.xmin, bounds.xmax, xdivs, ix),
                ymin: edge_exec(bounds.ymin, bounds.ymax, ydivs, iy),
                xmax: edge_exec(bounds.xmin, bounds.xmax, xdivs, ix + 1),
                ymax: edge_exec(bounds.ymin, bounds.ymax, ydivs, iy + 1),
            };
            let ghost before = out@;
            out.push(cell);
            proof {
                assert forall|y: int, x: int| 0 <= y < iy && 0 <= x < xdivs implies #[trigger] out@[y * xdivs + x]
                    == cell_spec(bounds, xdivs as nat, ydivs as nat, x as nat, y as nat) by {
                    assert(y * xdivs + x < iy * xdivs) by (nonlinear_arith)
                        requires
                            0 <= y < iy,
                            0 <= x < xdivs,
                    ;
                    assert(out@[y * xdivs + x] == before[y * xdivs + x]);
                }
                assert forall|x: int| 0 <= x < ix + 1 implies #[trigger] out@[iy * xdivs + x] == cell_spec(
                    bounds,
                    xdivs as nat,
                    ydivs as nat,
                    x as nat,
                    iy as nat,
                ) by {
                    if x < ix {
                        assert(out@[iy * xdivs + x] == before[iy * xdivs + x]);
                    }
                }
            }
            ix = ix + 1;
        }
        proof {
            assert forall|y: int, x: int| 0 <= y < iy + 1 && 0 <= x < xdivs implies #[trigger] out@[y * xdivs + x]
                == cell_spec(bounds, xdivs as nat, ydivs as nat, x as nat, y as nat) by {
                if y == iy {
                    assert(out@[iy * xdivs + x] == cell_spec(bounds, xdivs as nat, ydivs as nat, x as nat, iy as nat));
                }
            }
            assert((iy + 1) * xdivs == iy * xdivs + xdivs) by (nonlinear_arith);
        }
        iy = iy + 1;
    }
    assert(iy * xdivs == xdivs * ydivs) by (nonlinear_arith)
        requires
            iy == ydivs,
    ;
    out
}

/// The box of a stored point: a scalar spans only itself.
pub open spec fn point_box(p: Point) -> BBox {
    let (x0, x1) = match p.x {
        Coord::Scalar(x) => (x, x),
        Coord::Interval(lo, hi) => (lo, hi),
    };
    let (y0, y1) = match p.y {
        Coord::Scalar(y) => (y, y),
        Coord::Interval(lo, hi) => (lo, hi),
    };
    BBox { xmin: x0, ymin: y0, xmax: x1, ymax: y1 }
}

/// The box of a stored point.
pub fn point_bounds(p: Point) -> (r: BBox)
    ensures
        r == point_box(p),
{
    let (x0, x1) = match p.x {
        Coord::Scalar(x) => (x, x),
        Coord::Interval(lo, hi) => (lo, hi),
    };
    let (y0, y1) = match p.y {
        Coord::Scalar(y) => (y, y),
        Coord::Interval(lo, hi) => (lo, hi),
    };
    BBox { xmin: x0, ymin: y0, xmax: x1, ymax: y1 }
}

/// Along one axis: 1, plus, when the record reaches the cell's edge on
/// either side, the number of cell widths its extent covers, rounded up. A
/// cell of no width adds nothing.
pub open spec fn axis_cells(plo: int, phi: int, c0: int, c1: int) -> int {
    if (plo <= c0 || phi >= c1) && c1 > c0 {
        1 + (phi - plo + (c1 - c0) - 1) / (c1 - c0)
    } else {
        1
    }
}

fn axis_cells_exec(plo: i32, phi: i32, c0: i32, c1: i32) -> (r: u64)
    requires
        plo <= phi,
    ensures
        r == axis_cells(plo as int, phi as int, c0 as int, c1 as int),
        1 <= r <= 0x1_0000_0000,
{
    if (plo <= c0 || phi >= c1) && c1 > c0 {
        let w: i64 = c1 as i64 - c0 as i64;
        let e: i64 = phi as i64 - plo as i64;
        assert(0 <= (e + w - 1) as int / (w as int) <= e) by (nonlinear_arith)
            requires
                w >= 1,
                e >= 0,
        ;
        (1 + (e + w - 1) / w) as u64
    } else {
        1
    }
}

/// How many other cells of the grid a record with point `p`, returned for
/// `cell`, is likely returned for as well.
pub open spec fn extra_cells_spec(p: Point, cell: BBox) -> int {
    let b = point_box(p);
    axis_cells(b.xmin as int, b.xmax as int, cell.xmin as int, cell.xmax as int) * axis_cells(
        b.ymin as int,
        b.ymax as int,
        cell.ymin as int,
        cell.ymax as int,
    ) - 1
}

/// How many other cells of the grid a record with point `p`, returned for
/// `cell`, is likely returned for as well.
pub fn extra_cells(p: Point, cell: BBox) -> (r: u64)
    requires
        point_box(p).xmin <= point_box(p).xmax,
        point_box(p).ymin <= point_box(p).ymax,
    ensures
        r == extra_cells_spec(p, cell),
{
    let b = point_bounds(p);
    let nx = axis_cells_exec(b.xmin, b.xmax, cell.xmin, cell.xmax);
    let ny = axis_cells_exec(b.ymin, b.ymax, cell.ymin, cell.ymax);
    assert(1 <= nx * ny <= 0x1_0000_0000 * 0x1_0000_0000) by (nonlinear_arith)
        requires
            1 <= nx <= 0x1_0000_0000,
            1 <= ny <= 0x1_0000_0000,
    ;
    (nx as u128 * ny as u128 - 1) as u64
}

/// Decides whether the cell at hand keeps the record with external id `id`,
/// which it believes `extra` other cells will also return. The first cell to
/// see a record keeps it and notes how many sightings to drop; a later one
/// drops it and counts the sighting down, forgetting the id at zero.
pub fn claim(skip: &mut HashMap<u64, u64>, id: u64, extra: u64) -> (keep: bool)
    requires
        forall|k: u64| #[trigger] old(skip)@.contains_key(k) ==> old(skip)@[k] > 0,
    ensures
        forall|k: u64| #[trigger] final(skip)@.contains_key(k) ==> final(skip)@[k] > 0,
        keep == !old(skip)@.contains_key(id),
        keep && extra > 0 ==> final(skip)@ == old(skip)@.insert(id, extra),
        keep && extra == 0 ==> final(skip)@ == old(skip)@,
        !keep && old(skip)@[id] > 1 ==> final(skip)@ == old(skip)@.insert(id, (old(skip)@[id] - 1) as u64),
        !keep && old(skip)@[id] == 1 ==> final(skip)@ == old(skip)@.remove(id),
{
    match skip.get(&id) {
        Some(n) => {
            let n = *n;
            if n > 1 {
                skip.insert(id, n - 1);
            } else {
                skip.remove(&id);
            }
            false
        },
        None => {
            if extra > 0 {
                skip.insert(id, extra);
            }
            true
        },
    }
}

} // verus!
