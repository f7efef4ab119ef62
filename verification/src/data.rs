//! Geometry types over the compressed (integer) coordinate domain, and
//! the bounding-box operations every pipeline stage leans on.
//!
//! Coordinates are `u64` values; compressed data fits the widths 8, 16 or
//! 32 bits, so functions that do arithmetic state the bound they need.

use vstd::prelude::*;

verus! {

/// A 2D point.
pub type P2 = (u64, u64);

/// A 3D point.
pub type P3 = (u64, u64, u64);

/// A bounding box: minimum corner, maximum corner.
pub type BB = (P3, P3);

/// The all-zero box.
pub open spec fn zero_box() -> BB {
    ((0u64, 0u64, 0u64), (0u64, 0u64, 0u64))
}

/// The sentinel start box.
pub open spec fn sentinel_box() -> BB {
    ((u64::MAX, u64::MAX, u64::MAX), (0u64, 0u64, 0u64))
}

pub open spec fn umin(a: u64, b: u64) -> u64 {
    if a <= b {
        a
    } else {
        b
    }
}

pub open spec fn umax(a: u64, b: u64) -> u64 {
    if a >= b {
        a
    } else {
        b
    }
}

/// The smaller of two coordinates.
pub fn min_of(a: u64, b: u64) -> (r: u64)
    ensures
        r == umin(a, b),
{
    if a <= b {
        a
    } else {
        b
    }
}

/// The larger of two coordinates.
pub fn max_of(a: u64, b: u64) -> (r: u64)
    ensures
        r == umax(a, b),
{
    if a >= b {
        a
    } else {
        b
    }
}

/// The all-zero box, used only when a collection is empty.
pub fn default_box() -> (r: BB)
    ensures
        r == zero_box(),
{
    ((0, 0, 0), (0, 0, 0))
}

/// The sentinel box `(max, max, max), (min, min, min)`: stretching it by
/// at least one point makes it valid.
pub fn start_box() -> (r: BB)
    ensures
        r == sentinel_box(),
{
    ((u64::MAX, u64::MAX, u64::MAX), (0, 0, 0))
}

/// `bb` widened to include the 2D point `p`; the z axis is untouched.
pub open spec fn stretch2_spec(bb: BB, p: P2) -> BB {
    (
        (umin((bb.0).0, p.0), umin((bb.0).1, p.1), (bb.0).2),
        (umax((bb.1).0, p.0), umax((bb.1).1, p.1), (bb.1).2),
    )
}

/// `bb` widened to include the 3D point `p`.
pub open spec fn stretch3_spec(bb: BB, p: P3) -> BB {
    (
        (umin((bb.0).0, p.0), umin((bb.0).1, p.1), umin((bb.0).2, p.2)),
        (umax((bb.1).0, p.0), umax((bb.1).1, p.1), umax((bb.1).2, p.2)),
    )
}

/// Widen `bb` to include the 2D point `p`.
pub fn stretch_bound2(p: P2, bb: &mut BB)
    ensures
        *final(bb) == stretch2_spec(*old(bb), p),
{
    ((bb.0).0) = min_of((bb.0).0, p.0);
    ((bb.0).1) = min_of((bb.0).1, p.1);
    ((bb.1).0) = max_of((bb.1).0, p.0);
    ((bb.1).1) = max_of((bb.1).1, p.1);
}

/// Widen `bb` to include the 3D point `p`.
pub fn stretch_bound3(p: P3, bb: &mut BB)
    ensures
        *final(bb) == stretch3_spec(*old(bb), p),
{
    ((bb.0).0) = min_of((bb.0).0, p.0);
    ((bb.0).1) = min_of((bb.0).1, p.1);
    ((bb.0).2) = min_of((bb.0).2, p.2);
    ((bb.1).0) = max_of((bb.1).0, p.0);
    ((bb.1).1) = max_of((bb.1).1, p.1);
    ((bb.1).2) = max_of((bb.1).2, p.2);
}

/// `bb` stretched by every point of `ps` in order.
pub open spec fn stretched2(bb: BB, ps: Seq<P2>) -> BB
    decreases ps.len(),
{
    if ps.len() == 0 {
        bb
    } else {
        stretch2_spec(stretched2(bb, ps.drop_last()), ps.last())
    }
}

/// `bb` stretched by every 3D point of `ps` in order.
pub open spec fn stretched3(bb: BB, ps: Seq<P3>) -> BB
    decreases ps.len(),
{
    if ps.len() == 0 {
        bb
    } else {
        stretch3_spec(stretched3(bb, ps.drop_last()), ps.last())
    }
}

/// `bb` with its z axis widened to include the elevation `z`.
pub open spec fn z_stretched(bb: BB, z: u64) -> BB {
    (
        ((bb.0).0, (bb.0).1, umin((bb.0).2, z)),
        ((bb.1).0, (bb.1).1, umax((bb.1).2, z)),
    )
}

/// `p` lies within `bb` on the x and y axes.
pub open spec fn within2(bb: BB, p: P2) -> bool {
    (bb.0).0 <= p.0 <= (bb.1).0 && (bb.0).1 <= p.1 <= (bb.1).1
}

/// `p` lies within `bb` on all three axes.
pub open spec fn within3(bb: BB, p: P3) -> bool {
    (bb.0).0 <= p.0 <= (bb.1).0 && (bb.0).1 <= p.1 <= (bb.1).1 && (bb.0).2 <= p.2 <= (bb.1).2
}

/// A stretched box contains every point it was stretched by, and never
/// shrinks.
pub proof fn lemma_stretched2_contains(bb: BB, ps: Seq<P2>)
    ensures
        forall|j: int| 0 <= j < ps.len() ==> within2(stretched2(bb, ps), ps[j]),
        (stretched2(bb, ps).0).0 <= (bb.0).0 && (stretched2(bb, ps).1).0 >= (bb.1).0,
        (stretched2(bb, ps).0).1 <= (bb.0).1 && (stretched2(bb, ps).1).1 >= (bb.1).1,
        (stretched2(bb, ps).0).2 == (bb.0).2 && (stretched2(bb, ps).1).2 == (bb.1).2,
    decreases ps.len(),
{
    if ps.len() > 0 {
        lemma_stretched2_contains(bb, ps.drop_last());
        assert forall|j: int| 0 <= j < ps.len() implies within2(stretched2(bb, ps), ps[j]) by {
            if j < ps.len() - 1 {
                assert(ps.drop_last()[j] == ps[j]);
            }
        }
    }
}

/// A stretched box contains every 3D point it was stretched by, and never
/// shrinks.
pub proof fn lemma_stretched3_contains(bb: BB, ps: Seq<P3>)
    ensures
        forall|j: int| 0 <= j < ps.len() ==> within3(stretched3(bb, ps), ps[j]),
        (stretched3(bb, ps).0).0 <= (bb.0).0 && (stretched3(bb, ps).1).0 >= (bb.1).0,
        (stretched3(bb, ps).0).1 <= (bb.0).1 && (stretched3(bb, ps).1).1 >= (bb.1).1,
        (stretched3(bb, ps).0).2 <= (bb.0).2 && (stretched3(bb, ps).1).2 >= (bb.1).2,
    decreases ps.len(),
{
    if ps.len() > 0 {
        lemma_stretched3_contains(bb, ps.drop_last());
        assert forall|j: int| 0 <= j < ps.len() implies within3(stretched3(bb, ps), ps[j]) by {
            if j < ps.len() - 1 {
                assert(ps.drop_last()[j] == ps[j]);
            }
        }
    }
}

/// Shapes that know how many points they carry.
pub trait CustomShape {
    spec fn points_len_spec(&self) -> nat;

    fn points_len(&self) -> (r: usize)
        ensures
            r == self.points_len_spec(),
    ;
}

/// Shapes that carry a bounding box.
pub trait HasBB {
    spec fn bb_spec(&self) -> BB;

    fn bounding_box(&self) -> (r: &BB)
        ensures
            *r == self.bb_spec(),
    ;

    fn set_bounding_box(&mut self, bb: BB)
        ensures
            final(self).bb_spec() == bb,
    ;
}

/// Two boxes merged: the minima of the minima, the maxima of the maxima.
pub open spec fn merge_bb(acc: BB, b: BB) -> BB {
    (
        (umin((acc.0).0, (b.0).0), umin((acc.0).1, (b.0).1), umin((acc.0).2, (b.0).2)),
        (umax((acc.1).0, (b.1).0), umax((acc.1).1, (b.1).1), umax((acc.1).2, (b.1).2)),
    )
}

/// `acc` merged with every box of `boxes` in order.
pub open spec fn merged_bbs(acc: BB, boxes: Seq<BB>) -> BB
    decreases boxes.len(),
{
    if boxes.len() == 0 {
        acc
    } else {
        merge_bb(merged_bbs(acc, boxes.drop_last()), boxes.last())
    }
}

/// The global bounding box of a collection: the all-zero box when the
/// collection is empty, else the merge of every shape's box.
pub fn get_global_bb<U: HasBB>(shapes: &Vec<U>) -> (r: BB)
    ensures
        shapes@.len() == 0 ==> r == zero_box(),
        shapes@.len() > 0 ==> r == merged_bbs(
            sentinel_box(),
            shapes@.map_values(|s: U| s.bb_spec()),
        ),
{
    if shapes.len() == 0 {
        return default_box();
    }
    let mut acc = start_box();
    let ghost boxes = shapes@.map_values(|s: U| s.bb_spec());
    let mut i: usize = 0;
    while i < shapes.len()
        invariant
            0 <= i <= shapes.len(),
            boxes == shapes@.map_values(|s: U| s.bb_spec()),
            acc == merged_bbs(
                sentinel_box(),
                boxes.take(i as int),
            ),
        decreases shapes.len() - i,
    {
        let bb = shapes[i].bounding_box();
        let b0 = bb.0;
        let b1 = bb.1;
        acc = (
            (min_of((acc.0).0, b0.0), min_of((acc.0).1, b0.1), min_of((acc.0).2, b0.2)),
            (max_of((acc.1).0, b1.0), max_of((acc.1).1, b1.1), max_of((acc.1).2, b1.2)),
        );
        proof {
            assert(boxes.take(i + 1).drop_last() =~= boxes.take(i as int));
            assert(boxes.take(i + 1).last() == boxes[i as int]);
        }
        i = i + 1;
    }
    proof {
        assert(boxes.take(shapes@.len() as int) =~= boxes);
    }
    acc
}

/// A contour line: 2D points sharing the single elevation `z`.
pub struct ShapeZ {
    pub points: Vec<P2>,
    pub z: u64,
    pub bb: BB,
}

impl Clone for ShapeZ {
    /// An exact copy, field for field.
    fn clone(&self) -> (r: ShapeZ)
        ensures
            r.points@ == self.points@,
            r.z == self.z,
            r.bb == self.bb,
    {
        let mut ps: Vec<P2> = Vec::new();
        let mut i: usize = 0;
        while i < self.points.len()
            invariant
                0 <= i <= self.points.len(),
                ps@ == self.points@.take(i as int),
            decreases self.points.len() - i,
        {
            ps.push(self.points[i]);
            proof {
                assert(self.points@.take(i + 1) =~= self.points@.take(i as int).push(
                    self.points@[i as int],
                ));
            }
            i = i + 1;
        }
        proof {
            assert(self.points@.take(self.points@.len() as int) =~= self.points@);
        }
        ShapeZ { points: ps, z: self.z, bb: self.bb }
    }
}

impl CustomShape for ShapeZ {
    open spec fn points_len_spec(&self) -> nat {
        self.points@.len()
    }

    fn points_len(&self) -> (r: usize)
        ensures
            r == self.points_len_spec(),
    {
        self.points.len()
    }
}

impl HasBB for ShapeZ {
    open spec fn bb_spec(&self) -> BB {
        self.bb
    }

    fn bounding_box(&self) -> (r: &BB)
        ensures
            *r == self.bb_spec(),
    {
        &self.bb
    }

    fn set_bounding_box(&mut self, bb: BB)
        ensures
            final(self).bb_spec() == bb,
    {
        self.bb = bb;
    }
}

impl ShapeZ {
    /// Recompute the box from the 2D points alone, starting from the
    /// sentinel box.  Leaves an empty shape untouched; the z axis of the
    /// box is left at the sentinel values until `update_bb` runs.
    pub fn stretch_bb(&mut self)
        ensures
            final(self).points@ == old(self).points@,
            final(self).z == old(self).z,
            old(self).points@.len() == 0 ==> final(self).bb == old(self).bb,
            old(self).points@.len() > 0 ==> final(self).bb == stretched2(
                sentinel_box(),
                old(self).points@,
            ),
    {
        if self.points.len() == 0 {
            return ;
        }
        let mut bb = start_box();
        let mut i: usize = 0;
        while i < self.points.len()
            invariant
                0 <= i <= self.points.len(),
                self.points@ == old(self).points@,
                bb == stretched2(
                    sentinel_box(),
                    self.points@.take(i as int),
                ),
            decreases self.points.len() - i,
        {
            let p = self.points[i];
            stretch_bound2(p, &mut bb);
            proof {
                assert(self.points@.take(i + 1).drop_last() =~= self.points@.take(i as int));
                assert(self.points@.take(i + 1).last() == self.points@[i as int]);
            }
            i = i + 1;
        }
        proof {
            assert(self.points@.take(self.points@.len() as int) =~= self.points@);
        }
        self.bb = bb;
    }

    /// Widen the z axis of the box to include this shape's elevation.
    pub fn update_bb(&mut self)
        ensures
            final(self).points@ == old(self).points@,
            final(self).z == old(self).z,
            final(self).bb == z_stretched(old(self).bb, old(self).z),
    {
        let mut bb = self.bb;
        ((bb.0).2) = min_of((bb.0).2, self.z);
        ((bb.1).2) = max_of((bb.1).2, self.z);
        self.bb = bb;
    }
}

/// A 2D polyline with a style id.
pub struct StyledLine {
    pub points: Vec<P2>,
    pub style: usize,
    pub bb: BB,
}

impl CustomShape for StyledLine {
    open spec fn points_len_spec(&self) -> nat {
        self.points@.len()
    }

    fn points_len(&self) -> (r: usize)
        ensures
            r == self.points_len_spec(),
    {
        self.points.len()
    }
}

impl HasBB for StyledLine {
    open spec fn bb_spec(&self) -> BB {
        self.bb
    }

    fn bounding_box(&self) -> (r: &BB)
        ensures
            *r == self.bb_spec(),
    {
        &self.bb
    }

    fn set_bounding_box(&mut self, bb: BB)
        ensures
            final(self).bb_spec() == bb,
    {
        self.bb = bb;
    }
}

impl StyledLine {
    /// Recompute the box from the points alone, as `ShapeZ::stretch_bb`
    /// does.
    pub fn stretch_bb(&mut self)
        ensures
            final(self).points@ == old(self).points@,
            final(self).style == old(self).style,
            old(self).points@.len() == 0 ==> final(self).bb == old(self).bb,
            old(self).points@.len() > 0 ==> final(self).bb == stretched2(
                sentinel_box(),
                old(self).points@,
            ),
    {
        if self.points.len() == 0 {
            return ;
        }
        let mut bb = start_box();
        let mut i: usize = 0;
        while i < self.points.len()
            invariant
                0 <= i <= self.points.len(),
                self.points@ == old(self).points@,
                bb == stretched2(
                    sentinel_box(),
                    self.points@.take(i as int),
                ),
            decreases self.points.len() - i,
        {
            let p = self.points[i];
            stretch_bound2(p, &mut bb);
            proof {
                assert(self.points@.take(i + 1).drop_last() =~= self.points@.take(i as int));
                assert(self.points@.take(i + 1).last() == self.points@[i as int]);
            }
            i = i + 1;
        }
        proof {
            assert(self.points@.take(self.points@.len() as int) =~= self.points@);
        }
        self.bb = bb;
    }
}

/// A polygon: outer rings and inner (hole) rings of 3D points, with a
/// style id.
pub struct PolygonZ {
    pub inners: Vec<Vec<P3>>,
    pub outers: Vec<Vec<P3>>,
    pub bb: BB,
    pub style: usize,
}

/// Every point of every ring of `rings`, ring by ring.
pub open spec fn rings_points(rings: Seq<Seq<P3>>) -> Seq<P3> {
    rings.flatten()
}

impl CustomShape for PolygonZ {
    /// For a polygon this counts rings, not points; the count
    /// saturates at `usize::MAX`.
    open spec fn points_len_spec(&self) -> nat {
        if self.inners@.len() + self.outers@.len() <= usize::MAX {
            self.inners@.len() + self.outers@.len()
        } else {
            usize::MAX as nat
        }
    }

    fn points_len(&self) -> (r: usize)
        ensures
            r == self.points_len_spec(),
    {
        let a = self.inners.len();
        let b = self.outers.len();
        if b > usize::MAX - a {
            usize::MAX
        } else {
            a + b
        }
    }
}

impl HasBB for PolygonZ {
    open spec fn bb_spec(&self) -> BB {
        self.bb
    }

    fn bounding_box(&self) -> (r: &BB)
        ensures
            *r == self.bb_spec(),
    {
        &self.bb
    }

    fn set_bounding_box(&mut self, bb: BB)
        ensures
            final(self).bb_spec() == bb,
    {
        self.bb = bb;
    }
}

impl PolygonZ {
    /// Every ring point of the polygon, outer rings first: the order
    /// in which the box computation walks the points.
    pub open spec fn all_points(&self) -> Seq<P3> {
        rings_points(self.outers@.map_values(|r: Vec<P3>| r@)) + rings_points(
            self.inners@.map_values(|r: Vec<P3>| r@),
        )
    }

    /// Recompute the box from all ring points, starting from the sentinel
    /// box.  A polygon with no points is left untouched.
    pub fn stretch_bb(&mut self)
        ensures
            final(self).inners@ == old(self).inners@,
            final(self).outers@ == old(self).outers@,
            final(self).style == old(self).style,
            old(self).all_points().len() == 0 ==> final(self).bb == old(self).bb,
            old(self).all_points().len() > 0 ==> final(self).bb == stretched3(
                sentinel_box(),
                old(self).all_points(),
            ),
    {
        let total = self.count_points();
        if total == 0 {
            return ;
        }
        let mut bb = start_box();
        let ghost outs = self.outers@.map_values(|r: Vec<P3>| r@);
        let ghost inns = self.inners@.map_values(|r: Vec<P3>| r@);
        let mut i: usize = 0;
        while i < self.outers.len()
            invariant
                0 <= i <= self.outers.len(),
                *self == *old(self),
                outs == self.outers@.map_values(|r: Vec<P3>| r@),
                inns == self.inners@.map_values(|r: Vec<P3>| r@),
                bb == stretched3(
                    sentinel_box(),
                    rings_points(outs.take(i as int)),
                ),
            decreases self.outers.len() - i,
        {
            proof {
                lemma_flatten_take_step(outs, i as int);
            }
            let ring = &self.outers[i];
            let mut j: usize = 0;
            while j < ring.len()
                invariant
                    0 <= j <= ring.len(),
                    ring@ == outs[i as int],
                    bb == stretched3(
                        sentinel_box(),
                        rings_points(outs.take(i as int)) + ring@.take(j as int),
                    ),
                decreases ring.len() - j,
            {
                let p = ring[j];
                stretch_bound3(p, &mut bb);
                proof {
                    let pre = rings_points(outs.take(i as int));
                    assert((pre + ring@.take(j + 1)).drop_last() =~= pre + ring@.take(j as int));
                    assert((pre + ring@.take(j + 1)).last() == ring@[j as int]);
                }
                j = j + 1;
            }
            proof {
                assert(ring@.take(ring@.len() as int) =~= ring@);
                assert(rings_points(outs.take(i as int)) + outs[i as int] =~= rings_points(
                    outs.take(i + 1),
                ));
            }
            i = i + 1;
        }
        proof {
            assert(outs.take(self.outers@.len() as int) =~= outs);
        }
        let mut k: usize = 0;
        while k < self.inners.len()
            invariant
                0 <= k <= self.inners.len(),
                *self == *old(self),
                outs == self.outers@.map_values(|r: Vec<P3>| r@),
                inns == self.inners@.map_values(|r: Vec<P3>| r@),
                bb == stretched3(
                    sentinel_box(),
                    rings_points(outs) + rings_points(inns.take(k as int)),
                ),
            decreases self.inners.len() - k,
        {
            proof {
                lemma_flatten_take_step(inns, k as int);
            }
            let ring = &self.inners[k];
            let mut j: usize = 0;
            while j < ring.len()
                invariant
                    0 <= j <= ring.len(),
                    ring@ == inns[k as int],
                    bb == stretched3(
                        sentinel_box(),
                        rings_points(outs) + rings_points(inns.take(k as int)) + ring@.take(
                            j as int,
                        ),
                    ),
                decreases ring.len() - j,
            {
                let p = ring[j];
                stretch_bound3(p, &mut bb);
                proof {
                    let pre = rings_points(outs) + rings_points(inns.take(k as int));
                    assert((pre + ring@.take(j + 1)).drop_last() =~= pre + ring@.take(j as int));
                    assert((pre + ring@.take(j + 1)).last() == ring@[j as int]);
                }
                j = j + 1;
            }
            proof {
                assert(ring@.take(ring@.len() as int) =~= ring@);
                assert(rings_points(outs) + rings_points(inns.take(k as int)) + inns[k as int]
                    =~= rings_points(outs) + rings_points(inns.take(k + 1)));
            }
            k = k + 1;
        }
        proof {
            assert(inns.take(self.inners@.len() as int) =~= inns);
            assert(self.all_points().len() > 0);
        }
        self.bb = bb;
    }

    /// How many points all rings carry together, saturating at
    /// `usize::MAX`.
    pub fn count_points(&self) -> (r: usize)
        ensures
            r == 0 <==> self.all_points().len() == 0,
    {
        let mut total: usize = 0;
        let mut i: usize = 0;
        while i < self.outers.len()
            invariant
                0 <= i <= self.outers.len(),
                total == 0 <==> rings_points(
                    self.outers@.map_values(|r: Vec<P3>| r@).take(i as int),
                ).len() == 0,
            decreases self.outers.len() - i,
        {
            proof {
                lemma_flatten_take_step(self.outers@.map_values(|r: Vec<P3>| r@), i as int);
            }
            let l = self.outers[i].len();
            if l > usize::MAX - total {
                total = usize::MAX;
            } else {
                total = total + l;
            }
            i = i + 1;
        }
        proof {
            assert(self.outers@.map_values(|r: Vec<P3>| r@).take(self.outers@.len() as int)
                =~= self.outers@.map_values(|r: Vec<P3>| r@));
            assert(self.inners@.map_values(|r: Vec<P3>| r@).take(0) =~= Seq::<Seq<P3>>::empty());
        }
        let mut k: usize = 0;
        while k < self.inners.len()
            invariant
                0 <= k <= self.inners.len(),
                total == 0 <==> (rings_points(self.outers@.map_values(|r: Vec<P3>| r@))
                    + rings_points(
                    self.inners@.map_values(|r: Vec<P3>| r@).take(k as int),
                )).len() == 0,
            decreases self.inners.len() - k,
        {
            proof {
                lemma_flatten_take_step(self.inners@.map_values(|r: Vec<P3>| r@), k as int);
            }
            let l = self.inners[k].len();
            if l > usize::MAX - total {
                total = usize::MAX;
            } else {
                total = total + l;
            }
            k = k + 1;
        }
        proof {
            assert(self.outers@.map_values(|r: Vec<P3>| r@).take(self.outers@.len() as int)
                =~= self.outers@.map_values(|r: Vec<P3>| r@));
            assert(self.inners@.map_values(|r: Vec<P3>| r@).take(self.inners@.len() as int)
                =~= self.inners@.map_values(|r: Vec<P3>| r@));
        }
        total
    }
}

/// Flattening one more ring appends its points.
pub proof fn lemma_flatten_take_step(rings: Seq<Seq<P3>>, i: int)
    requires
        0 <= i < rings.len(),
    ensures
        rings.take(i + 1).flatten() =~= rings.take(i).flatten() + rings[i],
{
    let pre = rings.take(i);
    let one = rings.take(i + 1);
    assert(one =~= pre.push(rings[i]));
    pre.lemma_flatten_push(rings[i]);
}

} // verus!
