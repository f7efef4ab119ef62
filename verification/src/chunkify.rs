//! Spatial chunking: cutting shapes into a regular grid of cells, and
//! the level-of-detail filters that coarsen one cell's contour set.

use crate::data::{sentinel_box, start_box, stretched2, within2, HasBB, BB, P2, ShapeZ};
use crate::logger::{logs_issue, Issue, Logger};
use crate::triangulate::PolyTriangle;
use vstd::prelude::*;

verus! {

/// `inner` lies completely inside `outer` on the x and y axes.
pub open spec fn spec_bb_in_bb_xy(outer: BB, inner: BB) -> bool {
    (outer.0).0 <= (inner.0).0 && (outer.0).1 <= (inner.0).1 && (outer.1).0 >= (inner.1).0 && (
    outer.1).1 >= (inner.1).1
}

/// Returns true if `inner` is completely inside `outer`, else false.
pub fn bb_in_bb_xy(outer: &BB, inner: &BB) -> (r: bool)
    ensures
        r == spec_bb_in_bb_xy(*outer, *inner),
{
    (outer.0).0 <= (inner.0).0 && (outer.0).1 <= (inner.0).1 && (outer.1).0 >= (inner.1).0
        && (outer.1).1 >= (inner.1).1
}

/// `inner` lies completely outside `outer` on the x and y axes.
pub open spec fn spec_bb_out_bb_xy(outer: BB, inner: BB) -> bool {
    ((outer.0).0 > (inner.1).0 || (outer.1).0 < (inner.0).0) && ((outer.0).1 > (inner.1).1 || (
    outer.1).1 < (inner.0).1)
}

/// Returns true if `inner` is completely outside `outer`, else false.
pub fn bb_out_bb_xy(outer: &BB, inner: &BB) -> (r: bool)
    ensures
        r == spec_bb_out_bb_xy(*outer, *inner),
{
    ((outer.0).0 > (inner.1).0 || (outer.1).0 < (inner.0).0) && ((outer.0).1 > (inner.1).1 || (
    outer.1).1 < (inner.0).1)
}

/// A chunk of contour lines at grid cell `(cx, cy)`.
pub type ChunkLine = (u64, u64, Vec<ShapeZ>);

/// All chunks of a scene, row-major.
pub type ChunksLine = Vec<ChunkLine>;

/// Total number of points over a list of cut segments.
pub open spec fn seg_points_total(segs: Seq<(u64, u64, ShapeZ)>) -> int
    decreases segs.len(),
{
    if segs.len() == 0 {
        0
    } else {
        seg_points_total(segs.drop_last()) + segs.last().2.points@.len()
    }
}

/// The 2D point `p` falls in grid cell `(cx, cy)` for the cell sizes
/// `csx, csy`.
pub open spec fn in_cell(p: P2, cx: u64, cy: u64, csx: u64, csy: u64) -> bool {
    p.0 / csx == cx && p.1 / csy == cy
}

/// The 2D point `p` lies within the closed extent of grid cell
/// `(cx, cy)`: the cell including its far edge.
pub open spec fn in_cell_closed(p: P2, cx: u64, cy: u64, csx: u64, csy: u64) -> bool {
    cx * csx <= p.0 <= cx * csx + csx && cy * csy <= p.1 <= cy * csy + csy
}

/// A point in a cell lies within the cell's closed extent.
pub proof fn lemma_in_cell_closed(p: P2, cx: u64, cy: u64, csx: u64, csy: u64)
    requires
        csx >= 1,
        csy >= 1,
        in_cell(p, cx, cy, csx, csy),
    ensures
        in_cell_closed(p, cx, cy, csx, csy),
{
    assert(cx * csx <= p.0 < (cx + 1) * csx) by (nonlinear_arith)
        requires
            csx >= 1,
            p.0 / csx == cx,
    ;
    assert(cy * csy <= p.1 < (cy + 1) * csy) by (nonlinear_arith)
        requires
            csy >= 1,
            p.1 / csy == cy,
    ;
    assert((cx + 1) * csx == cx * csx + csx) by (nonlinear_arith);
    assert((cy + 1) * csy == cy * csy + csy) by (nonlinear_arith);
}

/// A coordinate within the scene extent lands in a cell index below
/// `cuts`, because the cell size is `extent / cuts + 1`.
pub proof fn lemma_cell_lt_cuts(x: u64, extent: u64, cuts: u64, cs: u64)
    requires
        x <= extent,
        cuts >= 1,
        cs == extent / cuts + 1,
    ensures
        x / cs < cuts,
{
    assert(x / cs < cuts) by (nonlinear_arith)
        requires
            x <= extent,
            cuts >= 1,
            cs == extent / cuts + 1,
    ;
}

/// The grid cell of a 2D point.
pub open spec fn pt_cell(p: P2, csx: u64, csy: u64) -> (u64, u64) {
    (p.0 / csx, p.1 / csy)
}

/// The split walk over one polyline: points in the current cell grow
/// the current segment; at a cell change the out-of-cell point closes
/// the segment (so the drawn line reaches the border region) and the
/// next segment opens with the previous point and the new one.
pub open spec fn cut_walk(
    points: Seq<P2>,
    csx: u64,
    csy: u64,
    i: int,
    oldc: (u64, u64),
    cur: Seq<P2>,
    prior: P2,
    acc: Seq<((u64, u64), Seq<P2>)>,
) -> Seq<((u64, u64), Seq<P2>)>
    decreases points.len() - i,
{
    if i < 0 || i >= points.len() {
        acc.push((oldc, cur))
    } else {
        let p = points[i];
        let nc = pt_cell(p, csx, csy);
        if nc == oldc {
            cut_walk(points, csx, csy, i + 1, oldc, cur.push(p), p, acc)
        } else {
            cut_walk(points, csx, csy, i + 1, nc, seq![prior, p], p, acc.push((oldc, cur.push(p))))
        }
    }
}

/// The segments one polyline splits into, each under its cell.
pub open spec fn cut_segments(points: Seq<P2>, csx: u64, csy: u64) -> Seq<((u64, u64), Seq<P2>)> {
    cut_walk(
        points,
        csx,
        csy,
        0,
        pt_cell(points[0], csx, csy),
        Seq::empty(),
        points[0],
        Seq::empty(),
    )
}

/// Split one contour line along the cell borders of a grid with cell
/// sizes `csizex, csizey`.  Returns the segments, each with the cell it
/// belongs to.
///
/// Where the line crosses a cell border between consecutive points `p`
/// and `q`, the segment being built is closed with `q` (so the drawn
/// line reaches into the border region) and the next segment starts with
/// `p` then `q`: both border-straddling points appear in both segments.
pub fn cut_shape(shape: &ShapeZ, csizex: u64, csizey: u64) -> (segs: Vec<(u64, u64, ShapeZ)>)
    requires
        shape.points@.len() >= 1,
        csizex >= 1,
        csizey >= 1,
    ensures
        segs@.len() >= 1,
        // the exact split: each segment's cell and point list
        segs@.map_values(|e: (u64, u64, ShapeZ)| ((e.0, e.1), e.2.points@)) == cut_segments(
            shape.points@,
            csizex,
            csizey,
        ),
        // vertex conservation: each split duplicates the two
        // border-straddling points
        seg_points_total(segs@) == shape.points@.len() + 2 * (segs@.len() - 1),
        // every segment is a piece of the same contour
        forall|k: int|
            0 <= k < segs@.len() ==> segs@[k].2.z == shape.z && segs@[k].2.points@.len() >= 1,
        // every segment's box is recomputed from its points
        forall|k: int|
            0 <= k < segs@.len() ==> segs@[k].2.bb == stretched2(
                sentinel_box(),
                segs@[k].2.points@,
            ),
        // locality: all points but a segment's first and last lie in the
        // segment's cell
        forall|k: int, j: int|
            0 <= k < segs@.len() && 1 <= j < segs@[k].2.points@.len() - 1 ==> in_cell(
                #[trigger] segs@[k].2.points@[j],
                segs@[k].0,
                segs@[k].1,
                csizex,
                csizey,
            ),
        // the first point of the first segment and the last point of the
        // last segment lie in their cells too
        in_cell(segs@[0].2.points@[0], segs@[0].0, segs@[0].1, csizex, csizey),
        in_cell(
            segs@.last().2.points@.last(),
            segs@.last().0,
            segs@.last().1,
            csizex,
            csizey,
        ),
        // consecutive segments abut: each starts with the last two points
        // of its predecessor
        forall|k: int|
            0 <= k < segs@.len() - 1 ==> segs@[k + 1].2.points@[0] == segs@[k].2.points@[segs@[k
                ].2.points@.len() - 2] && segs@[k + 1].2.points@[1] == segs@[k].2.points@.last(),
        // consecutive segments sit in different cells
        forall|k: int|
            #![trigger segs@[k]]
            0 <= k < segs@.len() - 1 ==> (segs@[k].0, segs@[k].1) != (segs@[k + 1].0, segs@[k
                + 1].1),
        // every cell is the cell of some input point
        forall|k: int|
            #![trigger segs@[k]]
            0 <= k < segs@.len() ==> exists|j: int|
                0 <= j < shape.points@.len() && in_cell(
                    #[trigger] shape.points@[j],
                    segs@[k].0,
                    segs@[k].1,
                    csizex,
                    csizey,
                ),
{
    let n = shape.points.len();
    let first = shape.points[0];
    let mut old_cx = first.0 / csizex;
    let mut old_cy = first.1 / csizey;
    let mut cur: Vec<P2> = Vec::new();
    let mut lastx: u64 = 0;
    let mut lasty: u64 = 0;
    let mut segs: Vec<(u64, u64, ShapeZ)> = Vec::new();
    let mut t: usize = 0;
    proof {
        let ps = shape.points@;
        let c0 = pt_cell(ps[0], csizex, csizey);
        // the first point sits in the starting cell, so the walk's
        // first step keeps whatever prior point was handed in
        assert(cut_segments(ps, csizex, csizey) == cut_walk(
            ps,
            csizex,
            csizey,
            1,
            c0,
            Seq::empty().push(ps[0]),
            ps[0],
            Seq::empty(),
        ));
        assert(cut_walk(ps, csizex, csizey, 0, c0, Seq::empty(), (0u64, 0u64), Seq::empty())
            == cut_walk(ps, csizex, csizey, 1, c0, Seq::empty().push(ps[0]), ps[0], Seq::empty()));
        assert(segs@.map_values(|e: (u64, u64, ShapeZ)| ((e.0, e.1), e.2.points@)) =~= Seq::<
            ((u64, u64), Seq<P2>),
        >::empty());
    }
    while t < n
        invariant
            cut_segments(shape.points@, csizex, csizey) == cut_walk(
                shape.points@,
                csizex,
                csizey,
                t as int,
                (old_cx, old_cy),
                cur@,
                (lastx, lasty),
                segs@.map_values(|e: (u64, u64, ShapeZ)| ((e.0, e.1), e.2.points@)),
            ),
            1 <= n == shape.points@.len(),
            0 <= t <= n,
            csizex >= 1,
            csizey >= 1,
            t == 0 ==> segs@.len() == 0 && cur@.len() == 0 && old_cx == shape.points@[0].0 / csizex
                && old_cy == shape.points@[0].1 / csizey,
            t >= 1 ==> cur@.len() >= 1 && (lastx, lasty) == shape.points@[t - 1]
                && cur@.last() == shape.points@[t - 1] && old_cx == shape.points@[t - 1].0 / csizex
                && old_cy == shape.points@[t - 1].1 / csizey,
            seg_points_total(segs@) + cur@.len() == t + 2 * segs@.len(),
            forall|j: int| 1 <= j < cur@.len() ==> in_cell(#[trigger] cur@[j], old_cx, old_cy, csizex, csizey),
            segs@.len() == 0 && cur@.len() >= 1 ==> in_cell(cur@[0], old_cx, old_cy, csizex, csizey),
            forall|k: int|
                0 <= k < segs@.len() ==> segs@[k].2.z == shape.z && segs@[k].2.points@.len() >= 2,
            forall|k: int|
                0 <= k < segs@.len() ==> segs@[k].2.bb == stretched2(
                    sentinel_box(),
                    segs@[k].2.points@,
                ),
            forall|k: int, j: int|
                0 <= k < segs@.len() && 1 <= j < segs@[k].2.points@.len() - 1 ==> in_cell(
                    #[trigger] segs@[k].2.points@[j],
                    segs@[k].0,
                    segs@[k].1,
                    csizex,
                    csizey,
                ),
            segs@.len() >= 1 ==> in_cell(segs@[0].2.points@[0], segs@[0].0, segs@[0].1, csizex, csizey),
            forall|k: int|
                0 <= k < segs@.len() - 1 ==> segs@[k + 1].2.points@[0] == segs@[k].2.points@[segs@[
                    k].2.points@.len() - 2] && segs@[k + 1].2.points@[1]
                    == segs@[k].2.points@.last(),
            forall|k: int|
                #![trigger segs@[k]]
                0 <= k < segs@.len() - 1 ==> (segs@[k].0, segs@[k].1) != (segs@[k + 1].0, segs@[k
                    + 1].1),
            segs@.len() >= 1 ==> cur@.len() >= 2 && cur@[0] == segs@.last().2.points@[segs@.last(
            ).2.points@.len() - 2] && cur@[1] == segs@.last().2.points@.last() && (
            segs@.last().0,
            segs@.last().1,
            ) != (old_cx, old_cy),
            forall|k: int|
                #![trigger segs@[k]]
                0 <= k < segs@.len() ==> exists|j: int|
                    0 <= j < shape.points@.len() && in_cell(
                        #[trigger] shape.points@[j],
                        segs@[k].0,
                        segs@[k].1,
                        csizex,
                        csizey,
                    ),
            t >= 1 ==> exists|j: int|
                0 <= j < shape.points@.len() && in_cell(
                    #[trigger] shape.points@[j],
                    old_cx,
                    old_cy,
                    csizex,
                    csizey,
                ),
        decreases n - t,
    {
        let p = shape.points[t];
        let x = p.0;
        let y = p.1;
        let new_cx = x / csizex;
        let new_cy = y / csizey;
        let ghost segs_v = segs@.map_values(|e: (u64, u64, ShapeZ)| ((e.0, e.1), e.2.points@));
        if new_cx == old_cx && new_cy == old_cy {
            cur.push((x, y));
        } else {
            cur.push((x, y));
            let mut news = ShapeZ { points: cur, z: shape.z, bb: start_box() };
            news.stretch_bb();
            let ghost old_segs = segs@;
            segs.push((old_cx, old_cy, news));
            proof {
                assert(segs@.drop_last() =~= old_segs);
                assert(t >= 1);
                assert(segs@.map_values(|e: (u64, u64, ShapeZ)| ((e.0, e.1), e.2.points@))
                    =~= segs_v.push(((old_cx, old_cy), news.points@)));
            }
            cur = Vec::new();
            cur.push((lastx, lasty));
            cur.push((x, y));
            proof {
                assert(cur@ =~= seq![(lastx, lasty), (x, y)]);
            }
            old_cx = new_cx;
            old_cy = new_cy;
        }
        lastx = x;
        lasty = y;
        t = t + 1;
    }
    let ghost segs_v = segs@.map_values(|e: (u64, u64, ShapeZ)| ((e.0, e.1), e.2.points@));
    let mut news = ShapeZ { points: cur, z: shape.z, bb: start_box() };
    news.stretch_bb();
    let ghost old_segs = segs@;
    segs.push((old_cx, old_cy, news));
    proof {
        assert(segs@.drop_last() =~= old_segs);
        assert(segs@.map_values(|e: (u64, u64, ShapeZ)| ((e.0, e.1), e.2.points@)) =~= segs_v.push(
            ((old_cx, old_cy), news.points@),
        ));
    }
    segs
}

/// The segments of a split that landed in cell `(cx, cy)`, as
/// elevation-and-points views, in order.
pub open spec fn segs_in_cell(
    model: Seq<((u64, u64), Seq<P2>)>,
    z: u64,
    cx: u64,
    cy: u64,
) -> Seq<(u64, Seq<P2>)>
    decreases model.len(),
{
    if model.len() == 0 {
        Seq::empty()
    } else {
        let pre = segs_in_cell(model.drop_last(), z, cx, cy);
        if model.last().0 == (cx, cy) {
            pre.push((z, model.last().1))
        } else {
            pre
        }
    }
}

/// What one shape contributes to grid cell `k` of a `cuts` by `cuts`
/// grid over `gbb`: nothing when its box lies outside its corner
/// cell; itself when its box fits inside that cell and the cell is
/// `k`; nothing when it would need cutting but has no points; else
/// its split segments that land in cell `k`.
pub open spec fn shape_contrib(s: ShapeZ, gbb: BB, cuts: u64, k: int) -> Seq<(u64, Seq<P2>)> {
    let csx = ((gbb.1).0 / cuts + 1) as u64;
    let csy = ((gbb.1).1 / cuts + 1) as u64;
    let cx = (s.bb.0).0 / csx;
    let cy = (s.bb.0).1 / csy;
    let sbb = (((s.bb.0).0, (s.bb.0).1, 0u64), ((s.bb.1).0, (s.bb.1).1, 0u64));
    let cbb = (
        ((cx * csx) as u64, (cy * csy) as u64, 0u64),
        ((cx * csx + csx) as u64, (cy * csy + csy) as u64, 0u64),
    );
    if spec_bb_out_bb_xy(cbb, sbb) {
        Seq::empty()
    } else if spec_bb_in_bb_xy(cbb, sbb) {
        if cy * cuts + cx == k {
            seq![(s.z, s.points@)]
        } else {
            Seq::empty()
        }
    } else if s.points@.len() == 0 {
        Seq::empty()
    } else {
        segs_in_cell(
            cut_segments(s.points@, csx, csy),
            s.z,
            (k % (cuts as int)) as u64,
            (k / (cuts as int)) as u64,
        )
    }
}

/// Everything the shapes put into grid cell `k`, shape by shape.
pub open spec fn cell_content(shapes: Seq<ShapeZ>, gbb: BB, cuts: u64, k: int) -> Seq<
    (u64, Seq<P2>),
>
    decreases shapes.len(),
{
    if shapes.len() == 0 {
        Seq::empty()
    } else {
        cell_content(shapes.drop_last(), gbb, cuts, k) + shape_contrib(shapes.last(), gbb, cuts, k)
    }
}

/// Adding one shape appends its contribution to every cell.
proof fn lemma_cell_content_take_step(shapes: Seq<ShapeZ>, gbb: BB, cuts: u64, k: int, i: int)
    requires
        0 <= i < shapes.len(),
    ensures
        cell_content(shapes.take(i + 1), gbb, cuts, k) == cell_content(shapes.take(i), gbb, cuts, k)
            + shape_contrib(shapes[i], gbb, cuts, k),
{
    assert(shapes.take(i + 1).drop_last() =~= shapes.take(i));
    assert(shapes.take(i + 1).last() == shapes[i]);
}

/// Every shape of every chunk obeys the locality guarantee: all its
/// points but the first and last lie within the closed extent of the
/// chunk's cell.
pub open spec fn chunk_local(chunks: Seq<(u64, u64, Vec<ShapeZ>)>, csx: u64, csy: u64) -> bool {
    forall|k: int, i: int, j: int|
        0 <= k < chunks.len() && 0 <= i < chunks[k].2@.len() && 1 <= j < chunks[k].2@[i].points@.len()
            - 1 ==> in_cell_closed(
            #[trigger] chunks[k].2@[i].points@[j],
            chunks[k].0,
            chunks[k].1,
            csx,
            csy,
        )
}

/// Cut `shapes` into a `cuts` by `cuts` grid of cells scaled over the
/// global bounding box `gbb`.
///
/// The box must have its minimum corner at the origin (the compressor
/// guarantees this by construction of the offsets); otherwise a
/// `NonOriginBoundingbox` issue is logged and no chunks come back.
/// Shapes whose box lies outside the cell of their lower-left corner are
/// dropped; shapes whose box fits inside that cell land there whole;
/// every other shape is split along the cell borders by `cut_shape`.
pub fn cut(cuts: u64, gbb: BB, shapes: &Vec<ShapeZ>, logger: &mut Logger) -> (chunks: ChunksLine)
    requires
        1 <= cuts,
        cuts * cuts <= usize::MAX,
        (gbb.1).0 <= u32::MAX,
        (gbb.1).1 <= u32::MAX,
        // shape boxes sit within the scene extent and contain their
        // shape's points
        forall|i: int|
            0 <= i < shapes@.len() ==> ((#[trigger] shapes@[i].bb).0).0 <= (gbb.1).0 && ((
            shapes@[i].bb).0).1 <= (gbb.1).1,
        forall|i: int, j: int|
            0 <= i < shapes@.len() && 0 <= j < shapes@[i].points@.len() ==> within2(
                shapes@[i].bb,
                #[trigger] shapes@[i].points@[j],
            ) && shapes@[i].points@[j].0 <= (gbb.1).0 && shapes@[i].points@[j].1 <= (gbb.1).1,
    ensures
        ((gbb.0).0 != 0 || (gbb.0).1 != 0) ==> chunks@.len() == 0 && logs_issue(
            *old(logger),
            *final(logger),
            Issue::NonOriginBoundingbox,
        ),
        ((gbb.0).0 == 0 && (gbb.0).1 == 0) ==> {
            &&& *final(logger) == *old(logger)
            &&& chunks@.len() == cuts * cuts
            &&& forall|k: int|
                #![trigger chunks@[k]]
                0 <= k < chunks@.len() ==> chunks@[k].0 == k % (cuts as int) && chunks@[k].1 == k
                    / (cuts as int)
            &&& forall|k: int|
                #![trigger chunks@[k]]
                0 <= k < chunks@.len() ==> lines_view(chunks@[k].2@) == cell_content(
                    shapes@,
                    gbb,
                    cuts,
                    k,
                )
            &&& chunk_local(chunks@, ((gbb.1).0 / cuts + 1) as u64, ((gbb.1).1 / cuts + 1) as u64)
        },
{
    let bb0x = (gbb.0).0;
    let bb0y = (gbb.0).1;
    if bb0x != 0 || bb0y != 0 {
        logger.log(Issue::NonOriginBoundingbox);
        return Vec::new();
    }
    let total_cells = (cuts * cuts) as usize;
    let mut grid: Vec<Vec<ShapeZ>> = Vec::new();
    while grid.len() < total_cells
        invariant
            grid@.len() <= total_cells,
            forall|k: int| 0 <= k < grid@.len() ==> (#[trigger] grid@[k])@.len() == 0,
        decreases total_cells - grid.len(),
    {
        grid.push(Vec::new());
    }
    let gwid = (gbb.1).0;
    let ghei = (gbb.1).1;
    let csizex = gwid / cuts + 1;
    let csizey = ghei / cuts + 1;
    let ghost csx = csizex;
    let ghost csy = csizey;
    let mut i: usize = 0;
    proof {
        assert forall|k: int| 0 <= k < grid@.len() implies lines_view(
            (#[trigger] grid@[k])@,
        ) == cell_content(shapes@.take(0), gbb, cuts, k) by {
            assert(lines_view(grid@[k]@) =~= Seq::<(u64, Seq<P2>)>::empty());
            assert(shapes@.take(0) =~= Seq::<ShapeZ>::empty());
        }
    }
    while i < shapes.len()
        invariant
            0 <= i <= shapes@.len(),
            1 <= cuts,
            cuts * cuts <= usize::MAX,
            gwid == (gbb.1).0 <= u32::MAX,
            ghei == (gbb.1).1 <= u32::MAX,
            csizex == gwid / cuts + 1 == csx,
            csizey == ghei / cuts + 1 == csy,
            grid@.len() == cuts * cuts,
            forall|k: int|
                0 <= k < grid@.len() ==> lines_view((#[trigger] grid@[k])@) == cell_content(
                    shapes@.take(i as int),
                    gbb,
                    cuts,
                    k,
                ),
            forall|i2: int|
                0 <= i2 < shapes@.len() ==> ((#[trigger] shapes@[i2].bb).0).0 <= (gbb.1).0 && ((
                shapes@[i2].bb).0).1 <= (gbb.1).1,
            forall|i2: int, j: int|
                0 <= i2 < shapes@.len() && 0 <= j < shapes@[i2].points@.len() ==> within2(
                    shapes@[i2].bb,
                    #[trigger] shapes@[i2].points@[j],
                ) && shapes@[i2].points@[j].0 <= (gbb.1).0 && shapes@[i2].points@[j].1 <= (
                gbb.1).1,
            grid_ok(grid@, cuts, csx, csy),
            *logger == *old(logger),
        decreases shapes.len() - i,
    {
        let shape = &shapes[i];
        let bb = shape.bounding_box();
        let x0 = (bb.0).0;
        let y0 = (bb.0).1;
        let x1 = (bb.1).0;
        let y1 = (bb.1).1;
        let cx = x0 / csizex;
        let cy = y0 / csizey;
        proof {
            lemma_cell_lt_cuts(x0, gwid, cuts, csizex);
            lemma_cell_lt_cuts(y0, ghei, cuts, csizey);
            assert(cx * csizex <= x0) by (nonlinear_arith)
                requires
                    csizex >= 1,
                    cx == x0 / csizex,
            ;
            assert(cy * csizey <= y0) by (nonlinear_arith)
                requires
                    csizey >= 1,
                    cy == y0 / csizey,
            ;
            assert(cx * csizex + csizex <= u32::MAX as int + u32::MAX as int + 1);
        }
        let sbb: BB = ((x0, y0, 0), (x1, y1, 0));
        let cbb: BB = (
            (cx * csizex, cy * csizey, 0),
            (cx * csizex + csizex, cy * csizey + csizey, 0),
        );
        proof {
            assert(((gbb.1).0 / cuts + 1) as u64 == csizex);
            assert(((gbb.1).1 / cuts + 1) as u64 == csizey);
            assert(cbb == (
                (((cx * csx) as u64), ((cy * csy) as u64), 0u64),
                (((cx * csx + csx) as u64), ((cy * csy + csy) as u64), 0u64),
            ));
        }
        let ghost grid_pre = grid@;
        let outside = bb_out_bb_xy(&cbb, &sbb);
        if outside {
            proof {
                assert forall|k: int| 0 <= k < grid@.len() implies lines_view(
                    (#[trigger] grid@[k])@,
                ) == cell_content(shapes@.take(i + 1), gbb, cuts, k) by {
                    lemma_cell_content_take_step(shapes@, gbb, cuts, k, i as int);
                    assert(shape_contrib(shapes@[i as int], gbb, cuts, k) =~= Seq::<
                        (u64, Seq<P2>),
                    >::empty());
                    assert(cell_content(shapes@.take(i as int), gbb, cuts, k) + Seq::<
                        (u64, Seq<P2>),
                    >::empty() =~= cell_content(shapes@.take(i as int), gbb, cuts, k));
                }
            }
            i = i + 1;
            continue ;
        }
        let inside = bb_in_bb_xy(&cbb, &sbb);
        if inside {
            let dup = shape.clone();
            proof {
                assert forall|j: int| 1 <= j < dup.points@.len() - 1 implies in_cell_closed(
                    #[trigger] dup.points@[j],
                    cx,
                    cy,
                    csx,
                    csy,
                ) by {
                    assert(within2(shapes@[i as int].bb, shapes@[i as int].points@[j]));
                }
            }
            let ghost vpos = cy * cuts + cx;
            grid_insert(&mut grid, cuts, cx, cy, dup, Ghost(csx), Ghost(csy));
            proof {
                assert forall|k: int| 0 <= k < grid@.len() implies lines_view(
                    (#[trigger] grid@[k])@,
                ) == cell_content(shapes@.take(i + 1), gbb, cuts, k) by {
                    lemma_cell_content_take_step(shapes@, gbb, cuts, k, i as int);
                    if k == vpos {
                        assert(grid@[k]@ == grid_pre[k]@.push(dup));
                        assert(lines_view(grid@[k]@) =~= lines_view(grid_pre[k]@).push(
                            (shapes@[i as int].z, shapes@[i as int].points@),
                        ));
                        assert(shape_contrib(shapes@[i as int], gbb, cuts, k) =~= seq![
                            (shapes@[i as int].z, shapes@[i as int].points@),
                        ]);
                        assert(lines_view(grid_pre[k]@) + seq![
                            (shapes@[i as int].z, shapes@[i as int].points@),
                        ] =~= lines_view(grid_pre[k]@).push(
                            (shapes@[i as int].z, shapes@[i as int].points@),
                        ));
                    } else {
                        assert(grid@[k] == grid_pre[k]);
                        assert(shape_contrib(shapes@[i as int], gbb, cuts, k) =~= Seq::<
                            (u64, Seq<P2>),
                        >::empty());
                        assert(cell_content(shapes@.take(i as int), gbb, cuts, k) + Seq::<
                            (u64, Seq<P2>),
                        >::empty() =~= cell_content(shapes@.take(i as int), gbb, cuts, k));
                    }
                }
            }
        } else if shape.points.len() > 0 {
            let mut segs = cut_shape(shape, csizex, csizey);
            let ghost segs_snap = segs@;
            let ghost model = cut_segments(shapes@[i as int].points@, csx, csy);
            proof {
                assert(model == segs_snap.map_values(
                    |e: (u64, u64, ShapeZ)| ((e.0, e.1), e.2.points@),
                ));
                assert forall|k: int| 0 <= k < grid@.len() implies lines_view(
                    (#[trigger] grid@[k])@,
                ) == cell_content(shapes@.take(i as int), gbb, cuts, k) + segs_in_cell(
                    model.take(0),
                    shapes@[i as int].z,
                    (k % (cuts as int)) as u64,
                    (k / (cuts as int)) as u64,
                ) by {
                    assert(model.take(0) =~= Seq::<((u64, u64), Seq<P2>)>::empty());
                    assert(cell_content(shapes@.take(i as int), gbb, cuts, k) + Seq::<
                        (u64, Seq<P2>),
                    >::empty() =~= cell_content(shapes@.take(i as int), gbb, cuts, k));
                }
            }
            let mut s: usize = 0;
            while s < segs.len()
                invariant
                    0 <= s <= segs@.len(),
                    segs@.len() == segs_snap.len(),
                    forall|k: int| s <= k < segs@.len() ==> #[trigger] segs@[k] == segs_snap[k],
                    1 <= cuts,
                    cuts * cuts <= usize::MAX,
                    csizex == csx >= 1,
                    csizey == csy >= 1,
                    grid@.len() == cuts * cuts,
                    i < shapes@.len(),
                    model == segs_snap.map_values(
                        |e: (u64, u64, ShapeZ)| ((e.0, e.1), e.2.points@),
                    ),
                    shape.z == shapes@[i as int].z,
                    forall|k: int|
                        0 <= k < segs_snap.len() ==> (#[trigger] segs_snap[k]).2.z == shapes@[i
                            as int].z,
                    forall|k: int|
                        0 <= k < grid@.len() ==> lines_view((#[trigger] grid@[k])@) == cell_content(
                            shapes@.take(i as int),
                            gbb,
                            cuts,
                            k,
                        ) + segs_in_cell(
                            model.take(s as int),
                            shapes@[i as int].z,
                            (k % (cuts as int)) as u64,
                            (k / (cuts as int)) as u64,
                        ),
                    forall|k: int|
                        #![trigger segs_snap[k]]
                        0 <= k < segs_snap.len() ==> exists|j: int|
                            0 <= j < shapes@[i as int].points@.len() && in_cell(
                                #[trigger] shapes@[i as int].points@[j],
                                segs_snap[k].0,
                                segs_snap[k].1,
                                csizex,
                                csizey,
                            ),
                    forall|j: int|
                        0 <= j < shapes@[i as int].points@.len() ==> (
                        #[trigger] shapes@[i as int].points@[j]).0 <= (gbb.1).0 && shapes@[i
                            as int].points@[j].1 <= (gbb.1).1,
                    gwid == (gbb.1).0,
                    ghei == (gbb.1).1,
                    csizex == gwid / cuts + 1,
                    csizey == ghei / cuts + 1,
                    forall|k: int, j: int|
                        0 <= k < segs_snap.len() && 1 <= j < segs_snap[k].2.points@.len() - 1
                            ==> in_cell(
                            #[trigger] segs_snap[k].2.points@[j],
                            segs_snap[k].0,
                            segs_snap[k].1,
                            csizex,
                            csizey,
                        ),
                    grid_ok(grid@, cuts, csx, csy),
                decreases segs@.len() - s,
            {
                let seg_cx = segs[s].0;
                let seg_cy = segs[s].1;
                proof {
                    let j = choose|j: int|
                        0 <= j < shapes@[i as int].points@.len() && in_cell(
                            #[trigger] shapes@[i as int].points@[j],
                            seg_cx,
                            seg_cy,
                            csizex,
                            csizey,
                        );
                    lemma_cell_lt_cuts(shapes@[i as int].points@[j].0, gwid, cuts, csizex);
                    lemma_cell_lt_cuts(shapes@[i as int].points@[j].1, ghei, cuts, csizey);
                }
                let mut taken: (u64, u64, ShapeZ) = (
                    0,
                    0,
                    ShapeZ { points: Vec::new(), z: 0, bb: ((0, 0, 0), (0, 0, 0)) },
                );
                core::mem::swap(&mut taken, &mut segs[s]);
                proof {
                    assert forall|j: int| 1 <= j < taken.2.points@.len() - 1 implies in_cell_closed(
                        #[trigger] taken.2.points@[j],
                        seg_cx,
                        seg_cy,
                        csx,
                        csy,
                    ) by {
                        assert(in_cell(taken.2.points@[j], seg_cx, seg_cy, csx, csy));
                        lemma_in_cell_closed(taken.2.points@[j], seg_cx, seg_cy, csx, csy);
                    }
                }
                let ghost grid_mid = grid@;
                let ghost vpos = seg_cy * cuts + seg_cx;
                grid_insert(&mut grid, cuts, seg_cx, seg_cy, taken.2, Ghost(csx), Ghost(csy));
                proof {
                    assert(model[s as int] == ((seg_cx, seg_cy), taken.2.points@));
                    assert forall|k: int| 0 <= k < grid@.len() implies lines_view(
                        (#[trigger] grid@[k])@,
                    ) == cell_content(shapes@.take(i as int), gbb, cuts, k) + segs_in_cell(
                        model.take(s + 1),
                        shapes@[i as int].z,
                        (k % (cuts as int)) as u64,
                        (k / (cuts as int)) as u64,
                    ) by {
                        let kx = (k % (cuts as int)) as u64;
                        let ky = (k / (cuts as int)) as u64;
                        assert(model.take(s + 1).drop_last() =~= model.take(s as int));
                        assert(model.take(s + 1).last() == model[s as int]);
                        vstd::arithmetic::div_mod::lemma_fundamental_div_mod(k, cuts as int);
                        if k == vpos {
                            lemma_cell_index_in_grid(seg_cx, seg_cy, cuts);
                            assert((kx, ky) == (seg_cx, seg_cy));
                            assert(taken.2.z == shapes@[i as int].z);
                            assert(grid@[k]@ == grid_mid[k]@.push(taken.2));
                            assert(lines_view(grid@[k]@) =~= lines_view(grid_mid[k]@).push(
                                (shapes@[i as int].z, taken.2.points@),
                            ));
                        } else {
                            vstd::arithmetic::div_mod::lemma_mod_bound(k, cuts as int);
                            if kx == seg_cx && ky == seg_cy {
                                assert(k == cuts as int * (k / (cuts as int)) + k % (
                                cuts as int));
                                assert(0 <= k / (cuts as int) <= k);
                                assert(k / (cuts as int) == seg_cy as int);
                                assert(k % (cuts as int) == seg_cx as int);
                                assert(k == seg_cy * cuts + seg_cx) by (nonlinear_arith)
                                    requires
                                        k == cuts as int * (k / (cuts as int)) + k % (
                                        cuts as int),
                                        k / (cuts as int) == seg_cy as int,
                                        k % (cuts as int) == seg_cx as int,
                                ;
                                assert(false);
                            }
                            assert((kx, ky) != (seg_cx, seg_cy));
                            assert(grid@[k] == grid_mid[k]);
                        }
                    }
                }
                s = s + 1;
            }
            proof {
                assert(model.take(model.len() as int) =~= model);
                assert forall|k: int| 0 <= k < grid@.len() implies lines_view(
                    (#[trigger] grid@[k])@,
                ) == cell_content(shapes@.take(i + 1), gbb, cuts, k) by {
                    lemma_cell_content_take_step(shapes@, gbb, cuts, k, i as int);
                    assert(shape_contrib(shapes@[i as int], gbb, cuts, k) == segs_in_cell(
                        model,
                        shapes@[i as int].z,
                        (k % (cuts as int)) as u64,
                        (k / (cuts as int)) as u64,
                    ));
                }
            }
        } else {
            proof {
                assert forall|k: int| 0 <= k < grid@.len() implies lines_view(
                    (#[trigger] grid@[k])@,
                ) == cell_content(shapes@.take(i + 1), gbb, cuts, k) by {
                    lemma_cell_content_take_step(shapes@, gbb, cuts, k, i as int);
                    assert(shape_contrib(shapes@[i as int], gbb, cuts, k) =~= Seq::<
                        (u64, Seq<P2>),
                    >::empty());
                    assert(cell_content(shapes@.take(i as int), gbb, cuts, k) + Seq::<
                        (u64, Seq<P2>),
                    >::empty() =~= cell_content(shapes@.take(i as int), gbb, cuts, k));
                }
            }
        }
        i = i + 1;
    }
    let mut chunks: ChunksLine = Vec::new();
    let ghost grid_frozen = grid@;
    proof {
        assert(shapes@.take(shapes@.len() as int) =~= shapes@);
    }
    let mut k: usize = 0;
    while k < total_cells
        invariant
            0 <= k <= total_cells,
            1 <= cuts,
            total_cells == cuts * cuts,
            grid@.len() == total_cells,
            grid_frozen.len() == total_cells,
            forall|j: int| k <= j < total_cells ==> grid@[j] == grid_frozen[j],
            chunks@.len() == k,
            forall|k2: int|
                #![trigger chunks@[k2]]
                0 <= k2 < k ==> chunks@[k2].0 == k2 % (cuts as int) && chunks@[k2].1 == k2 / (
                cuts as int) && chunks@[k2].2 == grid_frozen[k2],
            forall|k2: int|
                0 <= k2 < grid_frozen.len() ==> lines_view(
                    (#[trigger] grid_frozen[k2])@,
                ) == cell_content(shapes@, gbb, cuts, k2),
            grid_ok(grid_frozen, cuts, csx, csy),
            csx == (gbb.1).0 / cuts + 1,
            csy == (gbb.1).1 / cuts + 1,
            *logger == *old(logger),
        decreases total_cells - k,
    {
        let k_u64 = k as u64;
        let x = k_u64 % cuts;
        let y = k_u64 / cuts;
        let mut cell: Vec<ShapeZ> = Vec::new();
        core::mem::swap(&mut cell, &mut grid[k]);
        chunks.push((x, y, cell));
        k = k + 1;
    }
    chunks
}

/// Every shape in every grid cell keeps its interior points within the
/// closed extent of that cell.
pub open spec fn grid_ok(grid: Seq<Vec<ShapeZ>>, cuts: u64, csx: u64, csy: u64) -> bool {
    forall|k: int, i2: int, j: int|
        0 <= k < grid.len() && 0 <= i2 < grid[k]@.len() && 1 <= j < grid[k]@[i2].points@.len() - 1
            ==> in_cell_closed(
            #[trigger] grid[k]@[i2].points@[j],
            (k % (cuts as int)) as u64,
            (k / (cuts as int)) as u64,
            csx,
            csy,
        )
}

/// Append `shape` to the grid cell `(cx, cy)`, keeping the locality
/// guarantee of the whole grid.
fn grid_insert(
    grid: &mut Vec<Vec<ShapeZ>>,
    cuts: u64,
    cx: u64,
    cy: u64,
    shape: ShapeZ,
    Ghost(csx): Ghost<u64>,
    Ghost(csy): Ghost<u64>,
)
    requires
        1 <= cuts,
        cuts * cuts <= usize::MAX,
        cx < cuts,
        cy < cuts,
        old(grid)@.len() == cuts * cuts,
        grid_ok(old(grid)@, cuts, csx, csy),
        forall|j: int|
            1 <= j < shape.points@.len() - 1 ==> in_cell_closed(
                #[trigger] shape.points@[j],
                cx,
                cy,
                csx,
                csy,
            ),
    ensures
        final(grid)@.len() == cuts * cuts,
        grid_ok(final(grid)@, cuts, csx, csy),
        final(grid)@[cy * cuts + cx]@ == old(grid)@[cy * cuts + cx]@.push(shape),
        forall|k: int|
            0 <= k < cuts * cuts && k != cy * cuts + cx ==> final(grid)@[k] == old(grid)@[k],
{
    proof {
        lemma_cell_index_in_grid(cx, cy, cuts);
    }
    let vpos = (cy * cuts + cx) as usize;
    grid[vpos].push(shape);
    proof {
        let g = grid@;
        assert forall|k: int, i2: int, j: int|
            0 <= k < g.len() && 0 <= i2 < g[k]@.len() && 1 <= j < g[k]@[i2].points@.len() - 1
                implies in_cell_closed(
                #[trigger] g[k]@[i2].points@[j],
                (k % (cuts as int)) as u64,
                (k / (cuts as int)) as u64,
                csx,
                csy,
            ) by {
            if k == vpos && i2 == g[k]@.len() - 1 {
                assert(g[k]@[i2] == shape);
            } else {
                assert(g[k]@[i2] == old(grid)@[k]@[i2]);
            }
        }
    }
}

/// A cell coordinate pair below `cuts` gives a grid index below
/// `cuts * cuts`, and the index decodes back to the pair.
pub proof fn lemma_cell_index_in_grid(cx: u64, cy: u64, cuts: u64)
    requires
        cx < cuts,
        cy < cuts,
    ensures
        cy * cuts + cx < cuts * cuts,
        (cy * cuts + cx) % (cuts as int) == cx,
        (cy * cuts + cx) / (cuts as int) == cy,
{
    assert(cy * cuts + cx < cuts * cuts && (cy * cuts + cx) % (cuts as int) == cx && (cy * cuts
        + cx) / (cuts as int) == cy) by (nonlinear_arith)
        requires
            cx < cuts,
            cy < cuts,
    ;
}


/// The chunk's shapes whose elevation is a multiple of `modulo`, in
/// order.
pub open spec fn height_filtered(chunk: Seq<ShapeZ>, modulo: u64) -> Seq<ShapeZ>
    decreases chunk.len(),
{
    if chunk.len() == 0 {
        Seq::empty()
    } else {
        let pre = height_filtered(chunk.drop_last(), modulo);
        if chunk.last().z % modulo == 0 {
            pre.push(chunk.last())
        } else {
            pre
        }
    }
}

/// Keep only the shapes whose elevation is a multiple of `modulo`, so
/// coarse levels of detail show fewer contour lines.
pub fn pick_heights(modulo: u64, chunk: Vec<ShapeZ>) -> (r: Vec<ShapeZ>)
    requires
        modulo >= 1,
    ensures
        r@ == height_filtered(chunk@, modulo),
{
    let ghost snap = chunk@;
    let mut chunk = chunk;
    let mut filtered: Vec<ShapeZ> = Vec::new();
    let mut i: usize = 0;
    while i < chunk.len()
        invariant
            0 <= i <= chunk@.len(),
            chunk@.len() == snap.len(),
            forall|j: int| i <= j < snap.len() ==> #[trigger] chunk@[j] == snap[j],
            modulo >= 1,
            filtered@ == height_filtered(snap.take(i as int), modulo),
        decreases chunk.len() - i,
    {
        let mut s = ShapeZ { points: Vec::new(), z: 0, bb: ((0, 0, 0), (0, 0, 0)) };
        core::mem::swap(&mut s, &mut chunk[i]);
        proof {
            assert(snap.take(i + 1).drop_last() =~= snap.take(i as int));
            assert(snap.take(i + 1).last() == snap[i as int]);
        }
        if s.z % modulo == 0 {
            filtered.push(s);
        }
        i = i + 1;
    }
    proof {
        assert(snap.take(snap.len() as int) =~= snap);
    }
    filtered
}

/// An elevation that is a multiple of `k2` is a multiple of every
/// divisor `k1` of `k2`.
proof fn lemma_mod_divides(z: u64, k1: u64, k2: u64)
    requires
        k1 >= 1,
        k2 >= 1,
        k2 % k1 == 0,
        z % k2 == 0,
    ensures
        z % k1 == 0,
{
    let a = z as int / k2 as int;
    let b = k2 as int / k1 as int;
    vstd::arithmetic::div_mod::lemma_fundamental_div_mod(z as int, k2 as int);
    vstd::arithmetic::div_mod::lemma_fundamental_div_mod(k2 as int, k1 as int);
    assert(z as int == (b * a) * k1) by (nonlinear_arith)
        requires
            z == k2 as int * a,
            k2 == k1 as int * b,
    ;
    vstd::arithmetic::div_mod::lemma_mod_multiples_basic(b * a, k1 as int);
}

/// Filtering with a coarser modulus keeps a sub-multiset of what the
/// finer modulus keeps: whenever `k1` divides `k2`, every shape the
/// `k2` filter passes is also passed by the `k1` filter.
pub proof fn lemma_height_filter_monotone(chunk: Seq<ShapeZ>, k1: u64, k2: u64)
    requires
        k1 >= 1,
        k2 >= 1,
        k2 % k1 == 0,
    ensures
        height_filtered(chunk, k2).to_multiset().subset_of(
            height_filtered(chunk, k1).to_multiset(),
        ),
    decreases chunk.len(),
{
    broadcast use vstd::seq_lib::to_multiset_build;
    broadcast use vstd::seq_lib::to_multiset_contains;

    if chunk.len() == 0 {
    } else {
        lemma_height_filter_monotone(chunk.drop_last(), k1, k2);
        let s = chunk.last();
        let f1 = height_filtered(chunk.drop_last(), k1);
        let f2 = height_filtered(chunk.drop_last(), k2);
        if s.z % k2 == 0 {
            lemma_mod_divides(s.z, k1, k2);
            assert forall|x: ShapeZ|
                #[trigger] height_filtered(chunk, k2).to_multiset().count(x) <= height_filtered(
                    chunk,
                    k1,
                ).to_multiset().count(x) by {
                assert(height_filtered(chunk, k2).to_multiset() == f2.to_multiset().insert(s));
                assert(height_filtered(chunk, k1).to_multiset() == f1.to_multiset().insert(s));
            }
        } else {
            if s.z % k1 == 0 {
                assert forall|x: ShapeZ|
                    #[trigger] height_filtered(chunk, k2).to_multiset().count(x)
                        <= height_filtered(chunk, k1).to_multiset().count(x) by {
                    assert(height_filtered(chunk, k1).to_multiset() == f1.to_multiset().insert(s));
                }
            }
        }
    }
}

/// Total number of points over a chunk's shapes.
pub open spec fn total_points(chunk: Seq<ShapeZ>) -> int
    decreases chunk.len(),
{
    if chunk.len() == 0 {
        0
    } else {
        total_points(chunk.drop_last()) + chunk.last().points@.len()
    }
}

/// The first `i` points of `ps` thinned with stride `m`: an index is
/// kept when it is a multiple of `m` or the last index of `ps`.
pub open spec fn decimated_prefix(ps: Seq<P2>, m: int, i: int) -> Seq<P2>
    decreases i,
{
    if i <= 0 {
        Seq::empty()
    } else {
        let pre = decimated_prefix(ps, m, i - 1);
        if (i - 1) % m == 0 || i - 1 == ps.len() - 1 {
            pre.push(ps[i - 1])
        } else {
            pre
        }
    }
}

/// `ps` thinned with stride `m`.
pub open spec fn decimated(ps: Seq<P2>, m: int) -> Seq<P2> {
    decimated_prefix(ps, m, ps.len() as int)
}

/// Exact size of a thinned polyline: one point for every full stride,
/// plus the last point.
proof fn lemma_decimated_prefix_len(ps: Seq<P2>, m: int, i: int)
    requires
        m >= 1,
        1 <= i <= ps.len(),
        ps.len() >= 1,
    ensures
        i <= ps.len() - 1 ==> decimated_prefix(ps, m, i).len() == (i - 1) / m + 1,
        i == ps.len() && i >= 2 ==> decimated_prefix(ps, m, i).len() == (i - 2) / m + 2,
        i == ps.len() && i == 1 ==> decimated_prefix(ps, m, i).len() == 1,
    decreases i,
{
    if i == 1 {
        assert(decimated_prefix(ps, m, 0).len() == 0);
        assert((0int) % m == 0) by (nonlinear_arith)
            requires
                m >= 1,
        ;
    } else {
        lemma_decimated_prefix_len(ps, m, i - 1);
        if i - 1 <= ps.len() - 1 {
            if (i - 2) % m == 0 {
                assert((i - 2) / m + 1 == (i - 1) / m + 1 || (i - 2) / m + 1 == (i - 1) / m)
                    by (nonlinear_arith)
                    requires
                        m >= 1,
                        i >= 2,
                ;
            }
        }
        if i <= ps.len() - 1 {
            // the step keeps ps[i-1] exactly when (i-1) % m == 0
            if (i - 1) % m == 0 {
                assert((i - 1) / m == (i - 2) / m + 1) by (nonlinear_arith)
                    requires
                        m >= 1,
                        i >= 2,
                        (i - 1) % m == 0,
                ;
            } else {
                assert((i - 1) / m == (i - 2) / m) by (nonlinear_arith)
                    requires
                        m >= 1,
                        i >= 2,
                        (i - 1) % m != 0,
                ;
            }
        }
    }
}

/// Sum of quotients never exceeds the quotient of the sum.
proof fn lemma_sum_div_le(a: int, b: int, m: int)
    requires
        a >= 0,
        b >= 0,
        m >= 1,
    ensures
        a / m + b / m <= (a + b) / m,
{
    assert(a / m + b / m <= (a + b) / m) by (nonlinear_arith)
        requires
            a >= 0,
            b >= 0,
            m >= 1,
    ;
}

/// Simplify the lines by keeping every `stride`-th point of each shape,
/// plus the last point, where the stride is the chunk's total point
/// count divided by the budget `max`, plus one.
///
/// The output never holds more than `total / stride` points plus two
/// per shape; when every shape's last index is itself a multiple of the
/// stride, the bound tightens to one extra point per shape.
pub fn pick_points(max: usize, chunk: Vec<ShapeZ>) -> (r: Vec<ShapeZ>)
    requires
        max >= 1,
        total_points(chunk@) < usize::MAX,
        forall|k: int| 0 <= k < chunk@.len() ==> (#[trigger] chunk@[k]).points@.len() >= 1,
    ensures
        r@.len() == chunk@.len(),
        forall|k: int|
            0 <= k < chunk@.len() ==> (#[trigger] r@[k]).z == chunk@[k].z && r@[k].bb
                == chunk@[k].bb && r@[k].points@ == decimated(
                chunk@[k].points@,
                total_points(chunk@) / (max as int) + 1,
            ),
        total_points(r@) <= total_points(chunk@) / (total_points(chunk@) / (max as int) + 1) + 2
            * chunk@.len(),
        (forall|k: int|
            0 <= k < chunk@.len() ==> ((#[trigger] chunk@[k]).points@.len() - 1) % (total_points(
                chunk@,
            ) / (max as int) + 1) == 0) ==> total_points(r@) <= total_points(chunk@) / (
        total_points(chunk@) / (max as int) + 1) + chunk@.len(),
{
    let ghost snap = chunk@;
    let mut ps: usize = 0;
    let mut i: usize = 0;
    while i < chunk.len()
        invariant
            0 <= i <= chunk@.len(),
            chunk@ == snap,
            total_points(snap) < usize::MAX,
            ps == total_points(snap.take(i as int)),
        decreases chunk.len() - i,
    {
        proof {
            assert(snap.take(i + 1).drop_last() =~= snap.take(i as int));
            lemma_total_points_prefix_le(snap, i + 1);
        }
        ps = ps + chunk[i].points.len();
        i = i + 1;
    }
    proof {
        assert(snap.take(snap.len() as int) =~= snap);
    }
    let modulo = ps / max + 1;
    let ghost m = total_points(snap) / (max as int) + 1;
    let mut chunk = chunk;
    let mut nchunk: Vec<ShapeZ> = Vec::new();
    let mut k: usize = 0;
    while k < chunk.len()
        invariant
            0 <= k <= chunk@.len(),
            chunk@.len() == snap.len(),
            forall|j: int| k <= j < snap.len() ==> #[trigger] chunk@[j] == snap[j],
            forall|j: int| 0 <= j < snap.len() ==> (#[trigger] snap[j]).points@.len() >= 1,
            modulo == m >= 1,
            nchunk@.len() == k,
            forall|j: int|
                0 <= j < k ==> (#[trigger] nchunk@[j]).z == snap[j].z && nchunk@[j].bb
                    == snap[j].bb && nchunk@[j].points@ == decimated(snap[j].points@, m),
        decreases chunk.len() - k,
    {
        let mut s = ShapeZ { points: Vec::new(), z: 0, bb: ((0, 0, 0), (0, 0, 0)) };
        core::mem::swap(&mut s, &mut chunk[k]);
        let pts = s.points;
        let z = s.z;
        let bb = s.bb;
        let n = pts.len();
        let last = n - 1;
        let mut npoints: Vec<P2> = Vec::new();
        let mut j: usize = 0;
        while j < n
            invariant
                0 <= j <= n == pts@.len(),
                modulo >= 1,
                last == n - 1,
                npoints@ == decimated_prefix(pts@, modulo as int, j as int),
            decreases n - j,
        {
            if j % modulo == 0 || j == last {
                npoints.push(pts[j]);
            }
            j = j + 1;
        }
        nchunk.push(ShapeZ { points: npoints, z, bb });
        k = k + 1;
    }
    proof {
        lemma_decimated_total(snap, m);
    }
    nchunk
}

/// A prefix never holds more points than the whole chunk.
proof fn lemma_total_points_prefix_le(chunk: Seq<ShapeZ>, i: int)
    requires
        0 <= i <= chunk.len(),
    ensures
        total_points(chunk.take(i)) <= total_points(chunk),
        total_points(chunk.take(i)) >= 0,
    decreases chunk.len() - i,
{
    lemma_total_points_nonneg(chunk.take(i));
    if i == chunk.len() {
        assert(chunk.take(i) =~= chunk);
    } else {
        lemma_total_points_prefix_le(chunk, i + 1);
        assert(chunk.take(i + 1).drop_last() =~= chunk.take(i));
    }
}

proof fn lemma_total_points_nonneg(chunk: Seq<ShapeZ>)
    ensures
        total_points(chunk) >= 0,
    decreases chunk.len(),
{
    if chunk.len() > 0 {
        lemma_total_points_nonneg(chunk.drop_last());
    }
}

/// Both point-count bounds for a whole decimated chunk, by induction
/// over the shapes.
proof fn lemma_decimated_total(snap: Seq<ShapeZ>, m: int)
    requires
        m >= 1,
        forall|j: int| 0 <= j < snap.len() ==> (#[trigger] snap[j]).points@.len() >= 1,
    ensures
        forall|r: Seq<ShapeZ>|
            (r.len() == snap.len() && (forall|j: int|
                0 <= j < snap.len() ==> (#[trigger] r[j]).points@ == decimated(
                    snap[j].points@,
                    m,
                ))) ==> #[trigger] total_points(r) <= total_points(snap) / m + 2 * snap.len() && ((
            forall|j: int|
                0 <= j < snap.len() ==> ((#[trigger] snap[j]).points@.len() - 1) % m == 0)
                ==> total_points(r) <= total_points(snap) / m + snap.len()),
    decreases snap.len(),
{
    if snap.len() == 0 {
        assert forall|r: Seq<ShapeZ>|
            (r.len() == snap.len() && (forall|j: int|
                0 <= j < snap.len() ==> (#[trigger] r[j]).points@ == decimated(
                    snap[j].points@,
                    m,
                ))) implies #[trigger] total_points(r) <= total_points(snap) / m + 2 * snap.len()
            && ((forall|j: int|
            0 <= j < snap.len() ==> ((#[trigger] snap[j]).points@.len() - 1) % m == 0)
            ==> total_points(r) <= total_points(snap) / m + snap.len()) by {
            assert(r.len() == 0);
            assert(total_points(r) == 0);
        }
    } else {
        lemma_decimated_total(snap.drop_last(), m);
        assert forall|r: Seq<ShapeZ>|
            (r.len() == snap.len() && (forall|j: int|
                0 <= j < snap.len() ==> (#[trigger] r[j]).points@ == decimated(
                    snap[j].points@,
                    m,
                ))) implies #[trigger] total_points(r) <= total_points(snap) / m + 2 * snap.len()
            && ((forall|j: int|
            0 <= j < snap.len() ==> ((#[trigger] snap[j]).points@.len() - 1) % m == 0)
            ==> total_points(r) <= total_points(snap) / m + snap.len()) by {
            let rp = r.drop_last();
            let sp = snap.drop_last();
            assert(rp.len() == sp.len());
            assert forall|j: int| 0 <= j < sp.len() implies (#[trigger] rp[j]).points@ == decimated(
                sp[j].points@,
                m,
            ) by {
                assert(rp[j] == r[j]);
                assert(sp[j] == snap[j]);
            }
            let n = snap.last().points@.len() as int;
            lemma_decimated_prefix_len(snap.last().points@, m, n);
            lemma_total_points_nonneg(sp);
            lemma_sum_div_le(total_points(sp), n, m);
            assert(total_points(snap) == total_points(sp) + n);
            assert(total_points(r) == total_points(rp) + r.last().points@.len());
            assert(r.last().points@ == decimated(snap.last().points@, m));
            // the last shape alone keeps at most n / m + 2 points
            if n >= 2 {
                assert((n - 2) / m <= n / m) by (nonlinear_arith)
                    requires
                        m >= 1,
                        n >= 2,
                ;
            }
            if (n - 1) % m == 0 {
                if n >= 2 {
                    assert((n - 2) / m + 1 <= n / m) by (nonlinear_arith)
                        requires
                            m >= 1,
                            n >= 2,
                            (n - 1) % m == 0,
                    ;
                }
            }
        }
    }
}


/// Two contour lines connect: same elevation, and one's first or last
/// point equals the other's first or last point.
pub open spec fn connects(a: ShapeZ, b: ShapeZ) -> bool {
    a.z == b.z && (a.points@.first() == b.points@.first() || a.points@.first()
        == b.points@.last() || a.points@.last() == b.points@.first() || a.points@.last()
        == b.points@.last())
}

/// No two distinct shapes of the collection connect.
pub open spec fn pairwise_unconnected(shapes: Seq<ShapeZ>) -> bool {
    forall|i: int, j: int|
        0 <= i < shapes.len() && 0 <= j < shapes.len() && i != j ==> !connects(
            #[trigger] shapes[i],
            #[trigger] shapes[j],
        )
}

/// The view of a contour line the merge reasons over: elevation and
/// point list.
pub open spec fn line_view(s: ShapeZ) -> (u64, Seq<P2>) {
    (s.z, s.points@)
}

/// The views of a whole collection.
pub open spec fn lines_view(s: Seq<ShapeZ>) -> Seq<(u64, Seq<P2>)> {
    s.map_values(|e: ShapeZ| (e.z, e.points@))
}

/// The first line at or after position `j` that connects to `shape`,
/// with a code for which ends touch: `0` first-first, `1` first-last,
/// `2` last-first, `3` last-last (the order the scan tests them in).
pub open spec fn find_from(
    shape: (u64, Seq<P2>),
    others: Seq<(u64, Seq<P2>)>,
    j: int,
) -> Option<(int, int)>
    decreases others.len() - j,
{
    if j < 0 || j >= others.len() {
        None
    } else {
        let o = others[j];
        if shape.0 == o.0 && shape.1.first() == o.1.first() {
            Some((0int, j))
        } else if shape.0 == o.0 && shape.1.first() == o.1.last() {
            Some((1int, j))
        } else if shape.0 == o.0 && shape.1.last() == o.1.first() {
            Some((2int, j))
        } else if shape.0 == o.0 && shape.1.last() == o.1.last() {
            Some((3int, j))
        } else {
            find_from(shape, others, j + 1)
        }
    }
}

/// The merged point list for a touching-ends code: one side reversed
/// as needed so the shared point sits in the middle, and the one
/// duplicated shared point dropped.  Every other point — every drawn
/// edge — is kept.
pub open spec fn merged_points(code: int, sp: Seq<P2>, op: Seq<P2>) -> Seq<P2> {
    if code == 0 {
        sp.reverse().drop_last() + op
    } else if code == 1 {
        op.drop_last() + sp
    } else if code == 2 {
        sp.drop_last() + op
    } else {
        sp.drop_last() + op.reverse()
    }
}

/// The whole merge pass: pop a line, scan the rest for the first
/// connecting line, merge and push back (the removed partner replaced
/// by the last line, as a swap removal does), or set the popped line
/// aside when nothing connects.
pub open spec fn merge_loop(
    lines: Seq<(u64, Seq<P2>)>,
    acc: Seq<(u64, Seq<P2>)>,
) -> Seq<(u64, Seq<P2>)>
    decreases lines.len(),
{
    if lines.len() == 0 {
        acc
    } else {
        let shape = lines.last();
        let rest = lines.drop_last();
        let found = find_from(shape, rest, 0);
        // the scan always yields an index into the rest (see the range
        // lemma below); the guard only discharges termination
        if found is Some && 0 <= found->Some_0.1 < rest.len() {
            let f = found->Some_0;
            let other = rest[f.1];
            let rest2 = rest.update(f.1, rest.last()).drop_last();
            merge_loop(rest2.push((shape.0, merged_points(f.0, shape.1, other.1))), acc)
        } else {
            merge_loop(rest, acc.push(shape))
        }
    }
}

/// A successful scan's index lies in the scanned range.
pub proof fn lemma_find_from_range(shape: (u64, Seq<P2>), others: Seq<(u64, Seq<P2>)>, j: int)
    requires
        j >= 0,
    ensures
        find_from(shape, others, j) matches Some(f) ==> j <= f.1 < others.len(),
    decreases others.len() - j,
{
    if 0 <= j < others.len() {
        lemma_find_from_range(shape, others, j + 1);
    }
}

/// Which ends of two connecting lines touch: first-first, first-last,
/// last-first or last-last.
enum Fres {
    FF,
    FL,
    LF,
    LL,
}

/// The scan code of a touching-ends value.
spec fn fres_code(f: Fres) -> int {
    match f {
        Fres::FF => 0,
        Fres::FL => 1,
        Fres::LF => 2,
        Fres::LL => 3,
    }
}

/// 2D point equality.
fn pts_eq(a: P2, b: P2) -> (r: bool)
    ensures
        r == (a == b),
{
    a.0 == b.0 && a.1 == b.1
}

/// Find the first shape in `others` that connects to `shape`; remove
/// and return it, or return `None` when no shape connects.
fn find_other(shape: &ShapeZ, others: &mut Vec<ShapeZ>) -> (r: Option<(Fres, ShapeZ)>)
    requires
        shape.points@.len() >= 1,
        forall|j: int|
            0 <= j < old(others)@.len() ==> (#[trigger] old(others)@[j]).points@.len() >= 1,
    ensures
        r is None ==> *final(others) == *old(others) && (forall|j: int|
            0 <= j < old(others)@.len() ==> !connects(*shape, #[trigger] old(others)@[j])),
        r is None <==> find_from(line_view(*shape), lines_view(old(others)@), 0) is None,
        r matches Some(p) ==> {
            let f = find_from(line_view(*shape), lines_view(old(others)@), 0)->Some_0;
            &&& fres_code(p.0) == f.0
            &&& p.1 == old(others)@[f.1]
            &&& final(others)@ == old(others)@.update(f.1, old(others)@.last()).drop_last()
            &&& connects(*shape, p.1)
            &&& p.1.points@.len() >= 1
            &&& exists|j2: int| 0 <= j2 < old(others)@.len() && #[trigger] old(others)@[j2] == p.1
            &&& final(others)@.len() == old(others)@.len() - 1
            &&& forall|j: int|
                0 <= j < final(others)@.len() ==> exists|j2: int|
                    0 <= j2 < old(others)@.len() && #[trigger] final(others)@[j] == old(
                        others,
                    )@[j2]
        },
{
    let f0 = shape.points[0];
    let l0 = shape.points[shape.points.len() - 1];
    let mut fres = Fres::FF;
    let mut found = false;
    let mut ind: usize = 0;
    let mut i: usize = 0;
    while i < others.len() && !found
        invariant
            0 <= i <= others@.len(),
            *others == *old(others),
            shape.points@.len() >= 1,
            f0 == shape.points@.first(),
            l0 == shape.points@.last(),
            forall|j: int|
                0 <= j < old(others)@.len() ==> (#[trigger] old(others)@[j]).points@.len() >= 1,
            !found ==> forall|j: int| 0 <= j < i ==> !connects(*shape, #[trigger] others@[j]),
            !found ==> find_from(line_view(*shape), lines_view(others@), 0) == find_from(
                line_view(*shape),
                lines_view(others@),
                i as int,
            ),
            found ==> ind < others@.len() && connects(*shape, others@[ind as int]),
            found ==> find_from(line_view(*shape), lines_view(others@), 0) == Some(
                (fres_code(fres), ind as int),
            ),
        decreases others@.len() - i + (if found {
            0int
        } else {
            1int
        }),
    {
        if shape.z == others[i].z {
            let f1 = others[i].points[0];
            let l1 = others[i].points[others[i].points.len() - 1];
            if pts_eq(f0, f1) {
                fres = Fres::FF;
                ind = i;
                found = true;
            } else if pts_eq(f0, l1) {
                fres = Fres::FL;
                ind = i;
                found = true;
            } else if pts_eq(l0, f1) {
                fres = Fres::LF;
                ind = i;
                found = true;
            } else if pts_eq(l0, l1) {
                fres = Fres::LL;
                ind = i;
                found = true;
            }
        }
        if !found {
            i = i + 1;
        }
    }
    if !found {
        return None;
    }
    let removed = others.swap_remove(ind);
    proof {
        assert forall|j: int| 0 <= j < others@.len() implies exists|j2: int|
            0 <= j2 < old(others)@.len() && #[trigger] others@[j] == old(others)@[j2] by {
            if j == ind {
                assert(others@[j] == old(others)@[old(others)@.len() - 1]);
            } else {
                assert(others@[j] == old(others)@[j]);
            }
        }
    }
    Some((fres, removed))
}

/// Reverse a polyline.
fn reversed(v: Vec<P2>) -> (r: Vec<P2>)
    ensures
        r@ == v@.reverse(),
{
    let mut r: Vec<P2> = Vec::new();
    let mut i: usize = v.len();
    while i > 0
        invariant
            0 <= i <= v@.len(),
            r@.len() == v@.len() - i,
            forall|j: int| 0 <= j < r@.len() ==> #[trigger] r@[j] == v@[v@.len() - 1 - j],
        decreases i,
    {
        i = i - 1;
        r.push(v[i]);
    }
    proof {
        assert(r@ =~= v@.reverse());
    }
    r
}

/// Concatenate two polylines that share a point: the last point of `a`
/// is dropped, then `b` is appended.
fn conc(a: Vec<P2>, b: Vec<P2>) -> (r: Vec<P2>)
    requires
        a@.len() >= 1,
    ensures
        r@ == a@.drop_last() + b@,
{
    let ghost av = a@;
    let mut a = a;
    a.pop();
    proof {
        assert(av.drop_last() + b@.take(0) =~= av.drop_last());
    }
    let mut i: usize = 0;
    while i < b.len()
        invariant
            0 <= i <= b@.len(),
            a@ == av.drop_last() + b@.take(i as int),
        decreases b@.len() - i,
    {
        a.push(b[i]);
        proof {
            assert(av.drop_last() + b@.take(i + 1) =~= (av.drop_last() + b@.take(
                i as int,
            )).push(b@[i as int]));
        }
        i = i + 1;
    }
    proof {
        assert(b@.take(b@.len() as int) =~= b@);
    }
    a
}

/// Merge two connecting contour lines into one, reversing a side as
/// needed so the shared point sits in the middle; the merged line keeps
/// the elevation, drops one copy of the shared point, and gets a box
/// recomputed from its points.  Each end of the merged line is an end
/// of one of the two inputs.
fn merge_shapes(fres: Fres, shape: ShapeZ, oshape: ShapeZ) -> (r: ShapeZ)
    requires
        shape.points@.len() >= 1,
        oshape.points@.len() >= 1,
    ensures
        r.z == shape.z,
        r.points@ == merged_points(fres_code(fres), shape.points@, oshape.points@),
        r.points@.len() >= 1,
        (r.points@.first() == shape.points@.first() || r.points@.first()
            == shape.points@.last() || r.points@.first() == oshape.points@.first()
            || r.points@.first() == oshape.points@.last()),
        (r.points@.last() == shape.points@.first() || r.points@.last() == shape.points@.last()
            || r.points@.last() == oshape.points@.first() || r.points@.last()
            == oshape.points@.last()),
        r.bb == stretched2(sentinel_box(), r.points@),
{
    let sp = shape.points;
    let op = oshape.points;
    let z = shape.z;
    let ghost spv = sp@;
    let ghost opv = op@;
    let np = match fres {
        Fres::FF => conc(reversed(sp), op),
        Fres::FL => conc(op, sp),
        Fres::LF => conc(sp, op),
        Fres::LL => conc(sp, reversed(op)),
    };
    proof {
        match fres {
            Fres::FF => {
                assert(np@ == spv.reverse().drop_last() + opv);
                if spv.len() > 1 {
                    assert(np@.first() == spv.reverse()[0]);
                    assert(spv.reverse()[0] == spv.last());
                } else {
                    assert(np@.first() == opv.first());
                }
                assert(np@.last() == opv.last());
            },
            Fres::FL => {
                assert(np@ == opv.drop_last() + spv);
                if opv.len() > 1 {
                    assert(np@.first() == opv.first());
                } else {
                    assert(np@.first() == spv.first());
                }
                assert(np@.last() == spv.last());
            },
            Fres::LF => {
                assert(np@ == spv.drop_last() + opv);
                if spv.len() > 1 {
                    assert(np@.first() == spv.first());
                } else {
                    assert(np@.first() == opv.first());
                }
                assert(np@.last() == opv.last());
            },
            Fres::LL => {
                assert(np@ == spv.drop_last() + opv.reverse());
                if spv.len() > 1 {
                    assert(np@.first() == spv.first());
                } else {
                    assert(np@.first() == opv.reverse()[0]);
                    assert(opv.reverse()[0] == opv.last());
                }
                assert(np@.last() == opv.reverse()[opv.len() - 1]);
                assert(opv.reverse()[opv.len() - 1] == opv.first());
            },
        }
    }
    let mut nz = ShapeZ { points: np, z, bb: start_box() };
    nz.stretch_bb();
    nz
}

/// Merge lines with the same start or end point, repeatedly, until no
/// two of the returned lines connect.
///
/// When no two input lines connect in the first place, the result is
/// exactly the input in reverse order; running the merge a second time
/// therefore returns the same lines again.
pub fn optimize_lines(lines: Vec<ShapeZ>) -> (r: Vec<ShapeZ>)
    requires
        forall|i: int| 0 <= i < lines@.len() ==> (#[trigger] lines@[i]).points@.len() >= 1,
    ensures
        forall|i: int| 0 <= i < r@.len() ==> (#[trigger] r@[i]).points@.len() >= 1,
        pairwise_unconnected(r@),
        pairwise_unconnected(lines@) ==> r@ == lines@.reverse(),
        lines_view(r@) == merge_loop(lines_view(lines@), Seq::empty()),
{
    let ghost input = lines@;
    let mut lines = lines;
    let mut independents: Vec<ShapeZ> = Vec::new();
    proof {
        assert(lines_view(independents@) =~= Seq::<(u64, Seq<P2>)>::empty());
    }
    while lines.len() > 0
        invariant
            merge_loop(lines_view(input), Seq::empty()) == merge_loop(
                lines_view(lines@),
                lines_view(independents@),
            ),
            forall|i: int| 0 <= i < lines@.len() ==> (#[trigger] lines@[i]).points@.len() >= 1,
            forall|i: int|
                0 <= i < independents@.len() ==> (#[trigger] independents@[i]).points@.len() >= 1,
            pairwise_unconnected(independents@),
            forall|i: int, j: int|
                0 <= i < independents@.len() && 0 <= j < lines@.len() ==> !connects(
                    #[trigger] independents@[i],
                    #[trigger] lines@[j],
                ),
            pairwise_unconnected(input) ==> lines@ == input.take(lines@.len() as int)
                && independents@ == input.skip(lines@.len() as int).reverse(),
            pairwise_unconnected(input) ==> lines@.len() <= input.len(),
        decreases lines@.len(),
    {
        let ghost lines_pre = lines@;
        let shape = match lines.pop() {
            Some(s) => s,
            None => {
                proof {
                    assert(false);
                }
                ShapeZ { points: Vec::new(), z: 0, bb: ((0, 0, 0), (0, 0, 0)) }
            },
        };
        let ghost lines_popped = lines@;
        let other = find_other(&shape, &mut lines);
        match other {
            Some((fres, oshape)) => {
                proof {
                    if pairwise_unconnected(input) {
                        // a match contradicts an unconnected input: both
                        // shapes are distinct input elements
                        assert(lines_pre == input.take(lines_pre.len() as int));
                        assert(shape == input[lines_pre.len() - 1]);
                        let j2 = choose|j2: int|
                            0 <= j2 < lines_popped.len() && lines_popped[j2] == oshape;
                        assert(lines_popped[j2] == input[j2]);
                        assert(connects(input[lines_pre.len() - 1], input[j2]));
                        assert(false);
                    }
                }
                let news = merge_shapes(fres, shape, oshape);
                let ghost lines_found = lines@;
                lines.push(news);
                proof {
                    let sv = line_view(shape);
                    let restv = lines_view(lines_popped);
                    assert(lines_view(lines_pre).last() == sv);
                    assert(lines_view(lines_pre).drop_last() =~= restv);
                    lemma_find_from_range(sv, restv, 0);
                    let f = find_from(sv, restv, 0)->Some_0;
                    assert(lines_view(lines_found) =~= restv.update(f.1, restv.last()).drop_last());
                    assert(lines_view(lines@) =~= lines_view(lines_found).push(line_view(news)));
                    assert(line_view(news) == (sv.0, merged_points(f.0, sv.1, restv[f.1].1)));
                    assert(restv.len() >= 1);
                }
                proof {
                    assert forall|i: int, j: int|
                        0 <= i < independents@.len() && 0 <= j < lines@.len() implies !connects(
                            #[trigger] independents@[i],
                            #[trigger] lines@[j],
                        ) by {
                        if j < lines_found.len() {
                            assert(lines@[j] == lines_found[j]);
                            let j2 = choose|j2: int|
                                0 <= j2 < lines_popped.len() && lines_found[j] == lines_popped[j2];
                            assert(!connects(independents@[i], lines_popped[j2]));
                        } else {
                            assert(lines@[j] == news);
                            assert(!connects(independents@[i], shape));
                            let j2 = choose|j2: int|
                                0 <= j2 < lines_popped.len() && lines_popped[j2] == oshape;
                            assert(!connects(independents@[i], oshape));
                        }
                    }
                }
            },
            None => {
                proof {
                    let sv = line_view(shape);
                    let restv = lines_view(lines_popped);
                    assert(lines_view(lines_pre).last() == sv);
                    assert(lines_view(lines_pre).drop_last() =~= restv);
                    assert(lines_view(independents@).push(sv) =~= lines_view(
                        independents@.push(shape),
                    ));
                    if restv.len() == 0 {
                        assert(find_from(sv, restv, 0) is None);
                        assert(merge_loop(restv, lines_view(independents@).push(sv))
                            == lines_view(independents@).push(sv));
                        assert(merge_loop(lines_view(lines_pre), lines_view(independents@))
                            == merge_loop(restv, lines_view(independents@).push(sv)));
                    }
                }
                proof {
                    // the retired shape connects to nothing that remains
                    assert forall|i: int|
                        0 <= i < independents@.len() implies !connects(
                            shape,
                            #[trigger] independents@[i],
                        ) by {
                        assert(!connects(independents@[i], shape));
                    }
                    if pairwise_unconnected(input) {
                        let k = lines_pre.len() as int;
                        assert(lines_popped =~= input.take(k - 1));
                        assert(independents@.push(shape) =~= input.skip(k - 1).reverse()) by {
                            assert(independents@ == input.skip(k).reverse());
                            assert(shape == input[k - 1]);
                            assert forall|j: int|
                                0 <= j < input.len() - (k - 1) implies input.skip(k - 1).reverse()[j]
                                == (if j < input.len() - k {
                                input.skip(k).reverse()[j]
                            } else {
                                input[k - 1]
                            }) by {}
                        }
                    }
                }
                independents.push(shape);
            },
        }
    }
    proof {
        if pairwise_unconnected(input) {
            assert(input.skip(0) =~= input);
        }
        assert(lines_view(lines@) =~= Seq::<(u64, Seq<P2>)>::empty());
    }
    independents
}



/// The grid cell of a 2D point, for the cell sizes and scene offsets
/// in `cinf`.
pub open spec fn spec_xy_to_chunk(p: P2, cinf: (u64, u64, u64, u64)) -> (int, int) {
    ((p.0 - cinf.2) / (cinf.0 as int), (p.1 - cinf.3) / (cinf.1 as int))
}

/// Map a point to its grid cell: subtract the scene offset, divide by
/// the cell size.
fn xy_to_chunk(p: P2, cinf: (u64, u64, u64, u64)) -> (r: (usize, usize))
    requires
        cinf.0 >= 1,
        cinf.1 >= 1,
        p.0 >= cinf.2,
        p.1 >= cinf.3,
        p.0 - cinf.2 <= usize::MAX,
        p.1 - cinf.3 <= usize::MAX,
    ensures
        (r.0 as int, r.1 as int) == spec_xy_to_chunk(p, cinf),
{
    (((p.0 - cinf.2) / cinf.0) as usize, ((p.1 - cinf.3) / cinf.1) as usize)
}

/// The cell-size and offset tuple a grid over `gbb` uses.
pub open spec fn chunk_info(gbb: BB, cuts: u8) -> (u64, u64, u64, u64) {
    (
        ((((gbb.1).0 - (gbb.0).0) / (cuts as int) + 1)) as u64,
        ((((gbb.1).1 - (gbb.0).1) / (cuts as int) + 1)) as u64,
        (gbb.0).0,
        (gbb.0).1,
    )
}

/// The row-major chunk index of the cell a vertex falls in.
pub open spec fn spec_cell_index(v: P2, cinf: (u64, u64, u64, u64), cuts: u8) -> int {
    let c = spec_xy_to_chunk(v, cinf);
    c.1 * (cuts as int) + c.0
}

/// Truncate an index to 16 bits, as storing it in a `u16` does.
fn to_u16_trunc(x: usize) -> (r: u16)
    ensures
        r as int == (x as int) % 0x1_0000,
        r as int <= x as int,
{
    proof {
        assert((x as int) % 0x1_0000 == (x as u16) as int) by (bit_vector);
        assert((x as int) % 0x1_0000 <= x as int) by (nonlinear_arith);
    }
    #[verifier::truncate] (x as u16)
}

/// The triangles of a mesh, corners resolved through the index list.
pub open spec fn mesh_triangles(vertices: Seq<P2>, indices: Seq<u16>) -> Seq<(P2, P2, P2)> {
    Seq::new(
        (indices.len() / 3) as nat,
        |t: int|
            (
                vertices[indices[3 * t] as int],
                vertices[indices[3 * t + 1] as int],
                vertices[indices[3 * t + 2] as int],
            ),
    )
}

/// Triangle `t` of a source mesh, corners resolved.
pub open spec fn poly_tri(p: PolyTriangle, t: int) -> (P2, P2, P2) {
    (
        p.vertices@[p.indices@[3 * t] as int],
        p.vertices@[p.indices@[3 * t + 1] as int],
        p.vertices@[p.indices@[3 * t + 2] as int],
    )
}

/// Appending whole triangles to a mesh keeps every triangle it
/// already resolved.
proof fn lemma_mesh_triangles_extend(
    v_old: Seq<P2>,
    i_old: Seq<u16>,
    v_new: Seq<P2>,
    i_new: Seq<u16>,
)
    requires
        i_new.len() >= i_old.len(),
        i_new.take(i_old.len() as int) == i_old,
        v_new.len() >= v_old.len(),
        forall|j: int| 0 <= j < v_old.len() ==> #[trigger] v_new[j] == v_old[j],
        forall|m: int| 0 <= m < i_old.len() ==> (#[trigger] i_old[m] as int) < v_old.len(),
    ensures
        forall|t: int|
            0 <= t < i_old.len() / 3 ==> #[trigger] mesh_triangles(v_new, i_new)[t]
                == mesh_triangles(v_old, i_old)[t],
{
    assert forall|t: int| 0 <= t < i_old.len() / 3 implies #[trigger] mesh_triangles(
        v_new,
        i_new,
    )[t] == mesh_triangles(v_old, i_old)[t] by {
        assert(i_new[3 * t] == i_old[3 * t]);
        assert(i_new[3 * t + 1] == i_old[3 * t + 1]);
        assert(i_new[3 * t + 2] == i_old[3 * t + 2]);
    }
}

/// A duplicate-free sequence drawn from another sequence's values is
/// never longer than it.
proof fn lemma_distinct_subset_len(s: Seq<P2>, t: Seq<P2>)
    requires
        forall|a: int, b: int| 0 <= a < b < s.len() ==> s[a] != s[b],
        forall|m: int|
            0 <= m < s.len() ==> exists|j: int| 0 <= j < t.len() && #[trigger] s[m] == t[j],
    ensures
        s.len() <= t.len(),
{
    broadcast use vstd::set::group_set_axioms;

    assert(s.no_duplicates());
    s.unique_seq_to_set();
    t.lemma_cardinality_of_set();
    assert forall|x: P2| s.to_set().contains(x) implies t.to_set().contains(x) by {
        let m = choose|m: int| 0 <= m < s.len() && s[m] == x;
        let j = choose|j: int| 0 <= j < t.len() && s[m] == t[j];
        assert(t[j] == x);
    }
    vstd::set_lib::lemma_len_subset(s.to_set(), t.to_set());
}

/// A well-formed working mesh: distinct vertices, in-range indices,
/// whole triangles.
pub open spec fn mesh_wf(vertices: Seq<P2>, indices: Seq<u16>) -> bool {
    &&& indices.len() % 3 == 0
    &&& forall|m: int| 0 <= m < indices.len() ==> (#[trigger] indices[m] as int) < vertices.len()
    &&& forall|a: int, b: int| 0 <= a < b < vertices.len() ==> vertices[a] != vertices[b]
}

/// Append one vertex reference to a working mesh: push the index of an
/// equal vertex already in the mesh, or add the vertex and push its
/// new index.  Indices are truncated to 16 bits as they are stored.
fn localize(vertices: &mut Vec<P2>, indices: &mut Vec<u16>, vx: P2)
    requires
        forall|a: int, b: int|
            0 <= a < b < old(vertices)@.len() ==> old(vertices)@[a] != old(vertices)@[b],
        forall|m: int|
            0 <= m < old(indices)@.len() ==> (#[trigger] old(indices)@[m] as int) < old(vertices)@.len(),
    ensures
        final(indices)@.len() == old(indices)@.len() + 1,
        final(indices)@.take(old(indices)@.len() as int) == old(indices)@,
        final(vertices)@ == old(vertices)@ || final(vertices)@ == old(vertices)@.push(vx),
        forall|a: int, b: int|
            0 <= a < b < final(vertices)@.len() ==> final(vertices)@[a] != final(vertices)@[b],
        forall|m: int|
            0 <= m < final(indices)@.len() ==> (#[trigger] final(indices)@[m] as int) < final(vertices)@.len(),
        // while the mesh stays within 16-bit indices, the stored index
        // resolves to exactly the given vertex
        final(vertices)@.len() <= 0x1_0000 ==> final(vertices)@[final(indices)@.last() as int]
            == vx,
{
    let mut i: usize = 0;
    let mut found = false;
    let mut at: usize = 0;
    while i < vertices.len() && !found
        invariant
            0 <= i <= vertices@.len(),
            *vertices == *old(vertices),
            !found ==> forall|j: int| 0 <= j < i ==> #[trigger] vertices@[j] != vx,
            found ==> at < vertices@.len() && vertices@[at as int] == vx,
        decreases vertices@.len() - i + (if found {
            0int
        } else {
            1int
        }),
    {
        let v = vertices[i];
        if v.0 == vx.0 && v.1 == vx.1 {
            found = true;
            at = i;
        }
        if !found {
            i = i + 1;
        }
    }
    let ghost old_inds = indices@;
    if found {
        let ind = to_u16_trunc(at);
        indices.push(ind);
    } else {
        let ind = to_u16_trunc(vertices.len());
        vertices.push(vx);
        indices.push(ind);
    }
    proof {
        assert(indices@.take(old_inds.len() as int) =~= old_inds);
    }
}

/// A chunk of triangle meshes at grid cell `(cx, cy)`.
pub type ChunkPoly = (u64, u64, Vec<PolyTriangle>);

/// All triangle chunks of a scene, row-major.
pub type ChunksPoly = Vec<ChunkPoly>;

/// Every mesh in every grid cell is well formed, its box is
/// recomputed, and it carries a style from the input.
pub open spec fn poly_grid_ok(grid: Seq<Vec<PolyTriangle>>, styles: Seq<usize>) -> bool {
    forall|k: int, i: int|
        0 <= k < grid.len() && 0 <= i < grid[k]@.len() ==> {
            let m = #[trigger] grid[k]@[i];
            &&& mesh_wf(m.vertices@, m.indices@)
            &&& m.vertices@.len() >= 1
            &&& m.bb == stretched2(sentinel_box(), m.vertices@)
            &&& styles.contains(m.style)
        }
}

/// Every triangle of the entry's mesh is a triangle of the source
/// mesh `p`, and the entry's cell is the grid cell of one of the
/// triangle's own corners.
pub open spec fn entry_sound(
    entry: (usize, usize, Vec<P2>, Vec<u16>),
    p: PolyTriangle,
    cinf: (u64, u64, u64, u64),
) -> bool {
    forall|tt: int|
        0 <= tt < entry.3@.len() / 3 ==> {
            let tr = #[trigger] mesh_triangles(entry.2@, entry.3@)[tt];
            &&& (exists|t: int| 0 <= t < p.indices@.len() / 3 && tr == #[trigger] poly_tri(p, t))
            &&& (spec_xy_to_chunk(tr.0, cinf) == (entry.0 as int, entry.1 as int)
                || spec_xy_to_chunk(tr.1, cinf) == (entry.0 as int, entry.1 as int)
                || spec_xy_to_chunk(tr.2, cinf) == (entry.0 as int, entry.1 as int))
        }
}

/// Every triangle of the mesh is a triangle of the source mesh `src`
/// whose style the mesh carries, and grid cell `k` is the cell of one
/// of each triangle's own corners.
pub open spec fn mesh_sound_for(
    m: PolyTriangle,
    src: PolyTriangle,
    cinf: (u64, u64, u64, u64),
    cuts: u8,
    k: int,
) -> bool {
    m.style == src.style && (forall|tt: int|
        0 <= tt < m.indices@.len() / 3 ==> {
            let tr = #[trigger] mesh_triangles(m.vertices@, m.indices@)[tt];
            &&& (exists|t: int|
                0 <= t < src.indices@.len() / 3 && tr == #[trigger] poly_tri(src, t))
            &&& (spec_cell_index(tr.0, cinf, cuts) == k || spec_cell_index(tr.1, cinf, cuts) == k
                || spec_cell_index(tr.2, cinf, cuts) == k)
        })
}

/// The mesh is sound for one of the source meshes.
pub open spec fn mesh_sound(
    m: PolyTriangle,
    polys: Seq<PolyTriangle>,
    cinf: (u64, u64, u64, u64),
    cuts: u8,
    k: int,
) -> bool {
    exists|pi: int| 0 <= pi < polys.len() && mesh_sound_for(m, #[trigger] polys[pi], cinf, cuts, k)
}


/// Distribute triangulated meshes into a `cuts` by `cuts` grid scaled
/// over the global bounding box `gbb`.  Each triangle lands in the
/// cell of each of its distinct corner cells; vertices shared within
/// one cell's mesh are stored once.
#[verifier::rlimit(100)]
pub fn chunkify_polytriangles(cuts: u8, gbb: BB, polygons: Vec<PolyTriangle>) -> (chunks:
    ChunksPoly)
    requires
        cuts >= 1,
        (gbb.0).0 <= (gbb.1).0 <= u32::MAX,
        (gbb.0).1 <= (gbb.1).1 <= u32::MAX,
        forall|k: int, m: int|
            0 <= k < polygons@.len() && 0 <= m < polygons@[k].indices@.len() ==> ((
            #[trigger] polygons@[k].indices@[m]) as int) < polygons@[k].vertices@.len(),
        forall|k: int, m: int|
            0 <= k < polygons@.len() && 0 <= m < polygons@[k].vertices@.len() ==> (gbb.0).0 <= (
            #[trigger] polygons@[k].vertices@[m]).0 <= (gbb.1).0 && (gbb.0).1
                <= polygons@[k].vertices@[m].1 <= (gbb.1).1,
        // the 16-bit index cap of a single mesh
        forall|k: int| 0 <= k < polygons@.len() ==> (#[trigger] polygons@[k]).vertices@.len()
            <= 0x1_0000,
    ensures
        chunks@.len() == (cuts as int) * (cuts as int),
        forall|k: int|
            #![trigger chunks@[k]]
            0 <= k < chunks@.len() ==> chunks@[k].0 == k % (cuts as int) && chunks@[k].1 == k / (
            cuts as int),
        poly_grid_ok(
            chunks@.map_values(|c: ChunkPoly| c.2),
            polygons@.map_values(|p: PolyTriangle| p.style),
        ),
        // every mesh of cell `k` holds triangles of one source mesh,
        // carries that source's style, and `k` is the cell of a corner
        // of each of its triangles
        forall|k: int, mi: int|
            0 <= k < chunks@.len() && 0 <= mi < chunks@[k].2@.len() ==> mesh_sound(
                #[trigger] chunks@[k].2@[mi],
                polygons@,
                chunk_info(gbb, cuts),
                cuts,
                k,
            ),
{
    let cuts_u64 = cuts as u64;
    proof {
        assert((cuts as int) * (cuts as int) <= 65025) by (nonlinear_arith)
            requires
                cuts <= 255,
        ;
    }
    let total_cells = (cuts as usize) * (cuts as usize);
    let ghost styles = polygons@.map_values(|p: PolyTriangle| p.style);
    let mut grid: Vec<Vec<PolyTriangle>> = Vec::new();
    while grid.len() < total_cells
        invariant
            grid@.len() <= total_cells,
            forall|k: int| 0 <= k < grid@.len() ==> (#[trigger] grid@[k])@.len() == 0,
        decreases total_cells - grid.len(),
    {
        grid.push(Vec::new());
    }
    let gwid = (gbb.1).0 - (gbb.0).0;
    let ghei = (gbb.1).1 - (gbb.0).1;
    let csizex = gwid / cuts_u64 + 1;
    let csizey = ghei / cuts_u64 + 1;
    let cinf = (csizex, csizey, (gbb.0).0, (gbb.0).1);
    proof {
        assert(cinf == chunk_info(gbb, cuts));
    }
    let mut pi: usize = 0;
    let ghost polys = polygons@;
    let mut work = polygons;
    while pi < work.len()
        invariant
            0 <= pi <= polys.len(),
            polys == polygons@,
            work@.len() == polys.len(),
            forall|j: int| pi <= j < polys.len() ==> #[trigger] work@[j] == polys[j],
            styles == polys.map_values(|p: PolyTriangle| p.style),
            cuts >= 1,
            cuts_u64 == cuts as u64,
            total_cells == (cuts as int) * (cuts as int),
            gwid == (gbb.1).0 - (gbb.0).0 <= u32::MAX,
            ghei == (gbb.1).1 - (gbb.0).1 <= u32::MAX,
            csizex == gwid / cuts_u64 + 1,
            csizey == ghei / cuts_u64 + 1,
            cinf == (csizex, csizey, (gbb.0).0, (gbb.0).1),
            cinf == chunk_info(gbb, cuts),
            grid@.len() == total_cells,
            forall|k: int, m: int|
                0 <= k < polys.len() && 0 <= m < polys[k].indices@.len() ==> ((
                #[trigger] polys[k].indices@[m]) as int) < polys[k].vertices@.len(),
            forall|k: int, m: int|
                0 <= k < polys.len() && 0 <= m < polys[k].vertices@.len() ==> (gbb.0).0 <= (
                #[trigger] polys[k].vertices@[m]).0 <= (gbb.1).0 && (gbb.0).1
                    <= polys[k].vertices@[m].1 <= (gbb.1).1,
            forall|k: int| 0 <= k < polys.len() ==> (#[trigger] polys[k]).vertices@.len()
                <= 0x1_0000,
            forall|k: int, mi: int|
                0 <= k < grid@.len() && 0 <= mi < grid@[k]@.len() ==> mesh_sound(
                    #[trigger] grid@[k]@[mi],
                    polys,
                    cinf,
                    cuts,
                    k,
                ),
            poly_grid_ok(grid@, styles),
        decreases polys.len() - pi,
    {
        let mut polygon = PolyTriangle {
            vertices: Vec::new(),
            indices: Vec::new(),
            style: 0,
            bb: ((0, 0, 0), (0, 0, 0)),
        };
        core::mem::swap(&mut polygon, &mut work[pi]);
        let style = polygon.style;
        proof {
            assert(styles[pi as int] == polys[pi as int].style);
            assert(styles.contains(style));
        }
        // per-cell working meshes for this polygon
        let mut localgrid: Vec<(usize, usize, Vec<P2>, Vec<u16>)> = Vec::new();
        let nt = polygon.indices.len() / 3;
        let mut t: usize = 0;
        while t < nt
            invariant
                0 <= t <= nt,
                nt == polygon.indices@.len() as int / 3,
                polygon == polys[pi as int],
                pi < polys.len(),
                cuts >= 1,
                cuts_u64 == cuts as u64,
                gwid == (gbb.1).0 - (gbb.0).0 <= u32::MAX,
                ghei == (gbb.1).1 - (gbb.0).1 <= u32::MAX,
                csizex == gwid / cuts_u64 + 1,
                csizey == ghei / cuts_u64 + 1,
                cinf == (csizex, csizey, (gbb.0).0, (gbb.0).1),
                forall|m: int|
                    0 <= m < polygon.indices@.len() ==> ((polygon.indices@[m]) as int)
                        < polygon.vertices@.len(),
                forall|m: int|
                    0 <= m < polygon.vertices@.len() ==> (gbb.0).0 <= (
                    #[trigger] polygon.vertices@[m]).0 <= (gbb.1).0 && (gbb.0).1
                        <= polygon.vertices@[m].1 <= (gbb.1).1,
                polygon.vertices@.len() <= 0x1_0000,
                forall|e: int|
                    0 <= e < localgrid@.len() ==> {
                        let entry = #[trigger] localgrid@[e];
                        &&& (entry.0 as int) < cuts as int
                        &&& (entry.1 as int) < cuts as int
                        &&& entry.3@.len() % 3 == 0
                        &&& forall|m: int|
                            0 <= m < entry.3@.len() ==> ((#[trigger] entry.3@[m]) as int)
                                < entry.2@.len()
                        &&& forall|a: int, b: int|
                            0 <= a < b < entry.2@.len() ==> entry.2@[a] != entry.2@[b]
                        &&& forall|m: int|
                            0 <= m < entry.2@.len() ==> exists|j: int|
                                0 <= j < polygon.vertices@.len() && #[trigger] entry.2@[m]
                                    == polygon.vertices@[j]
                        &&& entry.2@.len() >= 1
                        &&& entry_sound(entry, polygon, cinf)
                    },
            decreases nt - t,
        {
            proof {
                assert(t * 3 + 2 < polygon.indices@.len()) by (nonlinear_arith)
                    requires
                        0 <= t < nt,
                        nt == polygon.indices@.len() as int / 3,
                ;
                vstd::std_specs::vec::axiom_spec_len(&polygon.indices);
                assert(t * 3 < polygon.indices@.len());
                assert(t * 3 + 1 < polygon.indices@.len());
                assert(t * 3 + 2 <= usize::MAX);
            }
            let ia = polygon.indices[t * 3];
            let ib = polygon.indices[t * 3 + 1];
            let ic = polygon.indices[t * 3 + 2];
            let va = polygon.vertices[ia as usize];
            let vb = polygon.vertices[ib as usize];
            let vc = polygon.vertices[ic as usize];
            let ca = xy_to_chunk(va, cinf);
            let cb = xy_to_chunk(vb, cinf);
            let cc = xy_to_chunk(vc, cinf);
            let ghost tri = (va, vb, vc);
            proof {
                assert(tri == poly_tri(polygon, t as int));
                lemma_cell_lt_cuts((va.0 - (gbb.0).0) as u64, gwid, cuts_u64, csizex);
                lemma_cell_lt_cuts((va.1 - (gbb.0).1) as u64, ghei, cuts_u64, csizey);
                lemma_cell_lt_cuts((vb.0 - (gbb.0).0) as u64, gwid, cuts_u64, csizex);
                lemma_cell_lt_cuts((vb.1 - (gbb.0).1) as u64, ghei, cuts_u64, csizey);
                lemma_cell_lt_cuts((vc.0 - (gbb.0).0) as u64, gwid, cuts_u64, csizex);
                lemma_cell_lt_cuts((vc.1 - (gbb.0).1) as u64, ghei, cuts_u64, csizey);
            }
            // the distinct corner cells of this triangle
            let mut cells: Vec<(usize, usize)> = Vec::new();
            cells.push(ca);
            if !(cb.0 == ca.0 && cb.1 == ca.1) {
                cells.push(cb);
            }
            if !(cc.0 == ca.0 && cc.1 == ca.1) && !(cc.0 == cb.0 && cc.1 == cb.1) {
                cells.push(cc);
            }
            let mut ci: usize = 0;
            while ci < cells.len()
                invariant
                    0 <= ci <= cells@.len(),
                    t < nt,
                    nt == polygon.indices@.len() as int / 3,
                    polygon == polys[pi as int],
                    pi < polys.len(),
                    cuts >= 1,
                    cinf == (csizex, csizey, (gbb.0).0, (gbb.0).1),
                    tri == poly_tri(polygon, t as int),
                    tri == (va, vb, vc),
                    polygon.vertices@.len() <= 0x1_0000,
                    exists|j: int|
                        0 <= j < polygon.vertices@.len() && #[trigger] polygon.vertices@[j]
                            == tri.0,
                    exists|j: int|
                        0 <= j < polygon.vertices@.len() && #[trigger] polygon.vertices@[j]
                            == tri.1,
                    exists|j: int|
                        0 <= j < polygon.vertices@.len() && #[trigger] polygon.vertices@[j]
                            == tri.2,
                    forall|e: int|
                        0 <= e < cells@.len() ==> ((#[trigger] cells@[e]).0 as int) < cuts as int
                            && (cells@[e].1 as int) < cuts as int,
                    forall|e: int|
                        0 <= e < cells@.len() ==> (((#[trigger] cells@[e]).0 as int,
                        cells@[e].1 as int) == spec_xy_to_chunk(tri.0, cinf) || ((
                        cells@[e]).0 as int, cells@[e].1 as int) == spec_xy_to_chunk(tri.1, cinf)
                            || ((cells@[e]).0 as int, cells@[e].1 as int) == spec_xy_to_chunk(
                            tri.2,
                            cinf,
                        )),
                    forall|e: int|
                        0 <= e < localgrid@.len() ==> {
                            let entry = #[trigger] localgrid@[e];
                            &&& (entry.0 as int) < cuts as int
                            &&& (entry.1 as int) < cuts as int
                            &&& entry.3@.len() % 3 == 0
                            &&& forall|m: int|
                                0 <= m < entry.3@.len() ==> ((#[trigger] entry.3@[m]) as int)
                                    < entry.2@.len()
                            &&& forall|a: int, b: int|
                                0 <= a < b < entry.2@.len() ==> entry.2@[a] != entry.2@[b]
                            &&& forall|m: int|
                                0 <= m < entry.2@.len() ==> exists|j: int|
                                    0 <= j < polygon.vertices@.len() && #[trigger] entry.2@[m]
                                        == polygon.vertices@[j]
                            &&& entry.2@.len() >= 1
                            &&& entry_sound(entry, polygon, cinf)
                        },
                decreases cells@.len() - ci,
            {
                let (cx, cy) = cells[ci];
                // find or create this cell's working mesh
                let mut at: usize = 0;
                let mut found = false;
                while at < localgrid.len() && !found
                    invariant
                        0 <= at <= localgrid@.len(),
                        t < nt,
                        nt == polygon.indices@.len() as int / 3,
                        polygon == polys[pi as int],
                        pi < polys.len(),
                        cuts >= 1,
                        cinf == (csizex, csizey, (gbb.0).0, (gbb.0).1),
                        tri == poly_tri(polygon, t as int),
                        tri == (va, vb, vc),
                        polygon.vertices@.len() <= 0x1_0000,
                        ci < cells@.len(),
                        (cx, cy) == cells@[ci as int],
                        (cx as int) < cuts as int,
                        (cy as int) < cuts as int,
                        ((cx as int, cy as int) == spec_xy_to_chunk(tri.0, cinf) || (cx as int,
                        cy as int) == spec_xy_to_chunk(tri.1, cinf) || (cx as int, cy as int)
                            == spec_xy_to_chunk(tri.2, cinf)),
                        exists|j: int|
                            0 <= j < polygon.vertices@.len() && #[trigger] polygon.vertices@[j]
                                == tri.0,
                        exists|j: int|
                            0 <= j < polygon.vertices@.len() && #[trigger] polygon.vertices@[j]
                                == tri.1,
                        exists|j: int|
                            0 <= j < polygon.vertices@.len() && #[trigger] polygon.vertices@[j]
                                == tri.2,
                        forall|e: int|
                            0 <= e < localgrid@.len() ==> {
                                let entry = #[trigger] localgrid@[e];
                                &&& (entry.0 as int) < cuts as int
                                &&& (entry.1 as int) < cuts as int
                                &&& entry.3@.len() % 3 == 0
                                &&& forall|m: int|
                                    0 <= m < entry.3@.len() ==> ((#[trigger] entry.3@[m]) as int)
                                        < entry.2@.len()
                                &&& forall|a: int, b: int|
                                    0 <= a < b < entry.2@.len() ==> entry.2@[a] != entry.2@[b]
                                &&& forall|m: int|
                                    0 <= m < entry.2@.len() ==> exists|j: int|
                                        0 <= j < polygon.vertices@.len() && #[trigger] entry.2@[m]
                                            == polygon.vertices@[j]
                                &&& entry.2@.len() >= 1
                                &&& entry_sound(entry, polygon, cinf)
                            },
                        found ==> at < localgrid@.len() && localgrid@[at as int].0 == cx
                            && localgrid@[at as int].1 == cy,
                    decreases localgrid@.len() - at + (if found {
                        0int
                    } else {
                        1int
                    }),
                {
                    if localgrid[at].0 == cx && localgrid[at].1 == cy {
                        found = true;
                    }
                    if !found {
                        at = at + 1;
                    }
                }
                if !found {
                    localgrid.push((cx, cy, Vec::new(), Vec::new()));
                    at = localgrid.len() - 1;
                }
                let ghost lg_mid = localgrid@;
                proof {
                    if !found {
                        assert(lg_mid[at as int].2@.len() == 0);
                        assert(lg_mid[at as int].3@.len() == 0);
                    }
                    assert(forall|m: int|
                        0 <= m < lg_mid[at as int].2@.len() ==> exists|j: int|
                            0 <= j < polygon.vertices@.len() && #[trigger] lg_mid[at
                                as int].2@[m] == polygon.vertices@[j]);
                    assert(forall|a: int, b: int|
                        0 <= a < b < lg_mid[at as int].2@.len() ==> lg_mid[at as int].2@[a]
                            != lg_mid[at as int].2@[b]);
                    assert(forall|m: int|
                        0 <= m < lg_mid[at as int].3@.len() ==> ((#[trigger] lg_mid[at
                            as int].3@[m]) as int) < lg_mid[at as int].2@.len());
                    assert(lg_mid[at as int].3@.len() % 3 == 0);
                    assert(entry_sound(lg_mid[at as int], polygon, cinf)) by {
                        if !found {
                            assert(lg_mid[at as int].3@.len() / 3 == 0);
                        }
                    }
                    assert(lg_mid[at as int].0 == cx && lg_mid[at as int].1 == cy);
                }
                let mut entry: (usize, usize, Vec<P2>, Vec<u16>) = (
                    0,
                    0,
                    Vec::new(),
                    Vec::new(),
                );
                core::mem::swap(&mut entry, &mut localgrid[at]);
                let ghost entry_snap = entry;
                proof {
                    assert(entry_snap == lg_mid[at as int]);
                }
                let (ecx, ecy, mut verts, mut inds) = entry;
                let ghost v0 = verts@;
                let ghost i0 = inds@;
                localize(&mut verts, &mut inds, va);
                proof {
                    assert forall|m: int| 0 <= m < verts@.len() implies exists|j: int|
                        0 <= j < polygon.vertices@.len() && #[trigger] verts@[m]
                            == polygon.vertices@[j] by {
                        if m < v0.len() {
                            assert(verts@[m] == v0[m]);
                            assert(v0[m] == lg_mid[at as int].2@[m]);
                        } else {
                            assert(verts@[m] == va);
                        }
                    }
                    lemma_distinct_subset_len(verts@, polygon.vertices@);
                }
                let ghost v1 = verts@;
                let ghost i1 = inds@;
                proof {
                    assert(forall|m: int|
                        0 <= m < v1.len() ==> exists|j: int|
                            0 <= j < polygon.vertices@.len() && #[trigger] v1[m]
                                == polygon.vertices@[j]);
                }
                localize(&mut verts, &mut inds, vb);
                proof {
                    assert forall|m: int| 0 <= m < verts@.len() implies exists|j: int|
                        0 <= j < polygon.vertices@.len() && #[trigger] verts@[m]
                            == polygon.vertices@[j] by {
                        if m < v1.len() {
                            assert(verts@[m] == v1[m]);
                        } else {
                            assert(verts@[m] == vb);
                        }
                    }
                    lemma_distinct_subset_len(verts@, polygon.vertices@);
                }
                let ghost v2 = verts@;
                let ghost i2 = inds@;
                proof {
                    assert(forall|m: int|
                        0 <= m < v2.len() ==> exists|j: int|
                            0 <= j < polygon.vertices@.len() && #[trigger] v2[m]
                                == polygon.vertices@[j]);
                }
                localize(&mut verts, &mut inds, vc);
                proof {
                    assert forall|m: int| 0 <= m < verts@.len() implies exists|j: int|
                        0 <= j < polygon.vertices@.len() && #[trigger] verts@[m]
                            == polygon.vertices@[j] by {
                        if m < v2.len() {
                            assert(verts@[m] == v2[m]);
                        } else {
                            assert(verts@[m] == vc);
                        }
                    }
                    lemma_distinct_subset_len(verts@, polygon.vertices@);
                }
                proof {
                    assert(inds@.len() == entry_snap.3@.len() + 3);
                    assert(inds@.len() % 3 == 0) by (nonlinear_arith)
                        requires
                            inds@.len() == entry_snap.3@.len() + 3,
                            entry_snap.3@.len() % 3 == 0,
                    ;
                    assert((inds@[0] as int) < verts@.len());
                    // the three stored indices resolve to this triangle
                    let base = i0.len() as int;
                    assert(i2.take(i1.len() as int) == i1);
                    assert(inds@.take(i2.len() as int) == i2);
                    assert(i1.last() == inds@[base]);
                    assert(i2.last() == inds@[base + 1]);
                    assert(v1[i1.last() as int] == va);
                    assert(v2[i2.last() as int] == vb);
                    assert(verts@[inds@.last() as int] == vc);
                    assert((i1.last() as int) < v1.len());
                    assert((i2.last() as int) < v2.len());
                    assert(verts@[inds@[base] as int] == va);
                    assert(verts@[inds@[base + 1] as int] == vb);
                    assert(3 * (base / 3) == base) by (nonlinear_arith)
                        requires
                            base % 3 == 0,
                            base >= 0,
                    ;
                    assert(mesh_triangles(verts@, inds@)[base / 3] == tri);
                    assert(inds@.take(i0.len() as int) =~= i0) by {
                        assert forall|m: int| 0 <= m < i0.len() implies inds@.take(
                            i0.len() as int,
                        )[m] == i0[m] by {
                            assert(inds@[m] == i2[m]);
                            assert(i2[m] == i1[m]);
                            assert(i1[m] == i0[m]);
                        }
                    }
                    lemma_mesh_triangles_extend(v0, i0, verts@, inds@);
                    assert(entry_sound((ecx, ecy, verts, inds), polygon, cinf)) by {
                        assert forall|tt: int| 0 <= tt < inds@.len() / 3 implies {
                            let tr = #[trigger] mesh_triangles(verts@, inds@)[tt];
                            &&& (exists|t3: int|
                                0 <= t3 < polygon.indices@.len() / 3 && tr == #[trigger] poly_tri(
                                    polygon,
                                    t3,
                                ))
                            &&& (spec_xy_to_chunk(tr.0, cinf) == (ecx as int, ecy as int)
                                || spec_xy_to_chunk(tr.1, cinf) == (ecx as int, ecy as int)
                                || spec_xy_to_chunk(tr.2, cinf) == (ecx as int, ecy as int))
                        } by {
                            if tt < base / 3 {
                                assert(mesh_triangles(verts@, inds@)[tt] == mesh_triangles(
                                    v0,
                                    i0,
                                )[tt]);
                                assert(entry_sound(entry_snap, polygon, cinf));
                            } else {
                                assert(tt == base / 3);
                                assert(mesh_triangles(verts@, inds@)[tt] == tri);
                                assert((cx as int, cy as int) == spec_xy_to_chunk(tri.0, cinf)
                                    || (cx as int, cy as int) == spec_xy_to_chunk(tri.1, cinf)
                                    || (cx as int, cy as int) == spec_xy_to_chunk(tri.2, cinf));
                            }
                        }
                    }
                }
                let mut entry2 = (ecx, ecy, verts, inds);
                core::mem::swap(&mut entry2, &mut localgrid[at]);
                proof {
                    assert forall|e2: int|
                        0 <= e2 < localgrid@.len() implies {
                        let entry3 = #[trigger] localgrid@[e2];
                        &&& (entry3.0 as int) < cuts as int
                        &&& (entry3.1 as int) < cuts as int
                        &&& entry3.3@.len() % 3 == 0
                        &&& forall|m: int|
                            0 <= m < entry3.3@.len() ==> ((#[trigger] entry3.3@[m]) as int)
                                < entry3.2@.len()
                        &&& forall|a: int, b: int|
                            0 <= a < b < entry3.2@.len() ==> entry3.2@[a] != entry3.2@[b]
                        &&& forall|m: int|
                            0 <= m < entry3.2@.len() ==> exists|j: int|
                                0 <= j < polygon.vertices@.len() && #[trigger] entry3.2@[m]
                                    == polygon.vertices@[j]
                        &&& entry3.2@.len() >= 1
                        &&& entry_sound(entry3, polygon, cinf)
                    } by {
                        if e2 != at {
                            assert(localgrid@[e2] == lg_mid[e2]);
                        }
                    }
                }
                ci = ci + 1;
            }
            t = t + 1;
        }
        // emit this polygon's per-cell meshes into the grid
        let mut e: usize = 0;
        let ghost lg = localgrid@;
        let mut localgrid = localgrid;
        while e < localgrid.len()
            invariant
                0 <= e <= lg.len(),
                localgrid@.len() == lg.len(),
                forall|j: int| e <= j < lg.len() ==> #[trigger] localgrid@[j] == lg[j],
                cuts >= 1,
                total_cells == (cuts as int) * (cuts as int),
                grid@.len() == total_cells,
                pi < polys.len(),
                style == polys[pi as int].style,
                styles.contains(style),
                cinf == chunk_info(gbb, cuts),
                forall|e2: int|
                    0 <= e2 < lg.len() ==> {
                        let entry = #[trigger] lg[e2];
                        &&& (entry.0 as int) < cuts as int
                        &&& (entry.1 as int) < cuts as int
                        &&& entry.3@.len() % 3 == 0
                        &&& forall|m: int|
                            0 <= m < entry.3@.len() ==> ((#[trigger] entry.3@[m]) as int)
                                < entry.2@.len()
                        &&& forall|a: int, b: int|
                            0 <= a < b < entry.2@.len() ==> entry.2@[a] != entry.2@[b]
                        &&& entry.2@.len() >= 1
                        &&& entry_sound(entry, polys[pi as int], cinf)
                    },
                forall|k: int, mi: int|
                    0 <= k < grid@.len() && 0 <= mi < grid@[k]@.len() ==> mesh_sound(
                        #[trigger] grid@[k]@[mi],
                        polys,
                        cinf,
                        cuts,
                        k,
                    ),
                poly_grid_ok(grid@, styles),
            decreases lg.len() - e,
        {
            let mut entry: (usize, usize, Vec<P2>, Vec<u16>) = (0, 0, Vec::new(), Vec::new());
            core::mem::swap(&mut entry, &mut localgrid[e]);
            let (cx, cy, verts, inds) = entry;
            let mut pt = PolyTriangle {
                vertices: verts,
                indices: inds,
                style,
                bb: crate::data::start_box(),
            };
            pt.stretch_bb();
            proof {
                assert(pt.vertices@ == lg[e as int].2@ && pt.indices@ == lg[e as int].3@);
                assert(cx == lg[e as int].0 && cy == lg[e as int].1);
                lemma_cell_index_in_grid(cx as u64, cy as u64, cuts as u64);
                assert((cy as int) * (cuts as int) + cx < 65536) by (nonlinear_arith)
                    requires
                        cx < cuts as usize,
                        cy < cuts as usize,
                        cuts <= 255,
                ;
            }
            let vpos = cy * (cuts as usize) + cx;
            let ghost grid_pre = grid@;
            grid[vpos].push(pt);
            proof {
                assert forall|tt: int| 0 <= tt < pt.indices@.len() / 3 implies {
                    let tr = #[trigger] mesh_triangles(pt.vertices@, pt.indices@)[tt];
                    &&& (exists|t3: int|
                        0 <= t3 < polys[pi as int].indices@.len() / 3 && tr
                            == #[trigger] poly_tri(polys[pi as int], t3))
                    &&& (spec_cell_index(tr.0, cinf, cuts) == vpos || spec_cell_index(
                        tr.1,
                        cinf,
                        cuts,
                    ) == vpos || spec_cell_index(tr.2, cinf, cuts) == vpos)
                } by {
                    assert(entry_sound(lg[e as int], polys[pi as int], cinf));
                    assert(mesh_triangles(pt.vertices@, pt.indices@)[tt] == mesh_triangles(
                        lg[e as int].2@,
                        lg[e as int].3@,
                    )[tt]);
                    assert((vpos as int) == (cy as int) * (cuts as int) + (cx as int));
                }
                assert(0 <= (pi as int) < polys.len() && pt.style == polys[pi as int].style);
                assert(mesh_sound_for(pt, polys[pi as int], cinf, cuts, vpos as int)) by {
                    assert(pt.style == polys[pi as int].style);
                    assert(forall|tt: int|
                        0 <= tt < pt.indices@.len() / 3 ==> {
                            let tr = #[trigger] mesh_triangles(pt.vertices@, pt.indices@)[tt];
                            &&& (exists|t: int|
                                0 <= t < polys[pi as int].indices@.len() / 3 && tr
                                    == #[trigger] poly_tri(polys[pi as int], t))
                            &&& (spec_cell_index(tr.0, cinf, cuts) == vpos as int
                                || spec_cell_index(tr.1, cinf, cuts) == vpos as int
                                || spec_cell_index(tr.2, cinf, cuts) == vpos as int)
                        });
                }
                assert(mesh_sound(pt, polys, cinf, cuts, vpos as int));
                assert forall|k: int, mi: int|
                    0 <= k < grid@.len() && 0 <= mi < grid@[k]@.len() implies mesh_sound(
                    #[trigger] grid@[k]@[mi],
                    polys,
                    cinf,
                    cuts,
                    k,
                ) by {
                    if k == vpos && mi == grid@[k]@.len() - 1 {
                        assert(grid@[k]@[mi] == pt);
                    } else {
                        assert(grid@[k]@[mi] == grid_pre[k]@[mi]);
                    }
                }
                assert forall|k: int, i2: int|
                    0 <= k < grid@.len() && 0 <= i2 < grid@[k]@.len() implies {
                    let m = #[trigger] grid@[k]@[i2];
                    &&& mesh_wf(m.vertices@, m.indices@)
                    &&& m.vertices@.len() >= 1
                    &&& m.bb == stretched2(sentinel_box(), m.vertices@)
                    &&& styles.contains(m.style)
                } by {
                    if k == vpos && i2 == grid@[k]@.len() - 1 {
                        assert(grid@[k]@[i2] == pt);
                    } else {
                        assert(grid@[k]@[i2] == grid_pre[k]@[i2]);
                    }
                }
            }
            e = e + 1;
        }
        pi = pi + 1;
    }
    // number the cells row-major
    let mut chunks: ChunksPoly = Vec::new();
    let ghost grid_frozen = grid@;
    let mut k: usize = 0;
    while k < total_cells
        invariant
            0 <= k <= total_cells,
            cuts >= 1,
            cuts_u64 == cuts as u64,
            total_cells == (cuts as int) * (cuts as int),
            grid@.len() == total_cells,
            grid_frozen.len() == total_cells,
            forall|j: int| k <= j < total_cells ==> grid@[j] == grid_frozen[j],
            chunks@.len() == k,
            forall|k2: int|
                #![trigger chunks@[k2]]
                0 <= k2 < k ==> chunks@[k2].0 == k2 % (cuts as int) && chunks@[k2].1 == k2 / (
                cuts as int) && chunks@[k2].2 == grid_frozen[k2],
            cinf == chunk_info(gbb, cuts),
            polys == polygons@,
            polygons@.len() == polys.len(),
            forall|k2: int, mi: int|
                0 <= k2 < grid_frozen.len() && 0 <= mi < grid_frozen[k2]@.len() ==> mesh_sound(
                    #[trigger] grid_frozen[k2]@[mi],
                    polys,
                    cinf,
                    cuts,
                    k2,
                ),
            poly_grid_ok(grid_frozen, styles),
        decreases total_cells - k,
    {
        let k_u64 = k as u64;
        let x = k_u64 % cuts_u64;
        let y = k_u64 / cuts_u64;
        let mut cell: Vec<PolyTriangle> = Vec::new();
        core::mem::swap(&mut cell, &mut grid[k]);
        chunks.push((x, y, cell));
        k = k + 1;
    }
    proof {
        let mapped = chunks@.map_values(|c: ChunkPoly| c.2);
        assert forall|k2: int, i2: int|
            0 <= k2 < mapped.len() && 0 <= i2 < mapped[k2]@.len() implies {
            let m = #[trigger] mapped[k2]@[i2];
            &&& mesh_wf(m.vertices@, m.indices@)
            &&& m.vertices@.len() >= 1
            &&& m.bb == stretched2(sentinel_box(), m.vertices@)
            &&& styles.contains(m.style)
        } by {
            assert(mapped[k2] == chunks@[k2].2);
            assert(chunks@[k2].2 == grid_frozen[k2]);
        }
        assert forall|k2: int, mi: int|
            0 <= k2 < chunks@.len() && 0 <= mi < chunks@[k2].2@.len() implies mesh_sound(
            #[trigger] chunks@[k2].2@[mi],
            polys,
            chunk_info(gbb, cuts),
            cuts,
            k2,
        ) by {
            assert(chunks@[k2].2 == grid_frozen[k2]);
            assert(mesh_sound(grid_frozen[k2]@[mi], polys, cinf, cuts, k2));
        }
    }
    chunks
}

} // verus!
