//! Coordinate statistics over the truncated (integer) coordinates, and
//! the choice of compression target width and multiplier.

use crate::data::{umax, umin, P3};
use vstd::prelude::*;

verus! {

/// Per-axis statistics: `(xmin, xrange, ymin, yrange, zmin, zrange)`.
pub type Ranges = (u64, u64, u64, u64, u64, u64);

/// The smallest coordinate on one axis over all points, starting from
/// the sentinel `u64::MAX`.
pub open spec fn axis_min(ps: Seq<P3>, axis: int) -> u64
    decreases ps.len(),
{
    if ps.len() == 0 {
        u64::MAX
    } else {
        umin(
            axis_min(ps.drop_last(), axis),
            if axis == 0 {
                ps.last().0
            } else if axis == 1 {
                ps.last().1
            } else {
                ps.last().2
            },
        )
    }
}

/// The largest coordinate on one axis over all points, starting from
/// zero.
pub open spec fn axis_max(ps: Seq<P3>, axis: int) -> u64
    decreases ps.len(),
{
    if ps.len() == 0 {
        0
    } else {
        umax(
            axis_max(ps.drop_last(), axis),
            if axis == 0 {
                ps.last().0
            } else if axis == 1 {
                ps.last().1
            } else {
                ps.last().2
            },
        )
    }
}

/// All points of all shapes, shape by shape.
pub open spec fn all_shape_points(shapes: Seq<Vec<P3>>) -> Seq<P3> {
    shapes.map_values(|s: Vec<P3>| s@).flatten()
}

/// On a nonempty point sequence the minimum never exceeds the maximum.
pub proof fn lemma_axis_min_le_max(ps: Seq<P3>, axis: int)
    requires
        ps.len() >= 1,
    ensures
        axis_min(ps, axis) <= axis_max(ps, axis),
    decreases ps.len(),
{
    if ps.len() > 1 {
        lemma_axis_min_le_max(ps.drop_last(), axis);
    }
}

/// Flattening one more shape appends its points.
proof fn lemma_points_take_step(shapes: Seq<Vec<P3>>, i: int)
    requires
        0 <= i < shapes.len(),
    ensures
        all_shape_points(shapes.take(i + 1)) =~= all_shape_points(shapes.take(i)) + shapes[i]@,
{
    let m = shapes.map_values(|s: Vec<P3>| s@);
    assert(shapes.take(i + 1).map_values(|s: Vec<P3>| s@) =~= m.take(i).push(shapes[i]@));
    assert(shapes.take(i).map_values(|s: Vec<P3>| s@) =~= m.take(i));
    m.take(i).lemma_flatten_push(shapes[i]@);
}

/// Per-axis minima and ranges of every point of every shape, after
/// truncation to unsigned 64-bit integers: `(xmin, xmax - xmin, ymin,
/// ymax - ymin, zmin, zmax - zmin)`.
pub fn compress_doubles_stats(shapes: &Vec<Vec<P3>>) -> (r: Ranges)
    requires
        all_shape_points(shapes@).len() >= 1,
    ensures
        ({
            let ps = all_shape_points(shapes@);
            &&& r.0 == axis_min(ps, 0)
            &&& r.1 == axis_max(ps, 0) - axis_min(ps, 0)
            &&& r.2 == axis_min(ps, 1)
            &&& r.3 == axis_max(ps, 1) - axis_min(ps, 1)
            &&& r.4 == axis_min(ps, 2)
            &&& r.5 == axis_max(ps, 2) - axis_min(ps, 2)
        }),
{
    let mut xmin: u64 = u64::MAX;
    let mut xmax: u64 = 0;
    let mut ymin: u64 = u64::MAX;
    let mut ymax: u64 = 0;
    let mut zmin: u64 = u64::MAX;
    let mut zmax: u64 = 0;
    let mut i: usize = 0;
    proof {
        assert(shapes@.take(0).map_values(|s: Vec<P3>| s@) =~= Seq::<Seq<P3>>::empty());
    }
    while i < shapes.len()
        invariant
            0 <= i <= shapes@.len(),
            xmin == axis_min(all_shape_points(shapes@.take(i as int)), 0),
            xmax == axis_max(all_shape_points(shapes@.take(i as int)), 0),
            ymin == axis_min(all_shape_points(shapes@.take(i as int)), 1),
            ymax == axis_max(all_shape_points(shapes@.take(i as int)), 1),
            zmin == axis_min(all_shape_points(shapes@.take(i as int)), 2),
            zmax == axis_max(all_shape_points(shapes@.take(i as int)), 2),
        decreases shapes@.len() - i,
    {
        let shape = &shapes[i];
        let ghost base = all_shape_points(shapes@.take(i as int));
        let mut j: usize = 0;
        while j < shape.len()
            invariant
                0 <= j <= shape@.len(),
                shape@ == shapes@[i as int]@,
                xmin == axis_min(base + shape@.take(j as int), 0),
                xmax == axis_max(base + shape@.take(j as int), 0),
                ymin == axis_min(base + shape@.take(j as int), 1),
                ymax == axis_max(base + shape@.take(j as int), 1),
                zmin == axis_min(base + shape@.take(j as int), 2),
                zmax == axis_max(base + shape@.take(j as int), 2),
            decreases shape@.len() - j,
        {
            let p = shape[j];
            proof {
                assert((base + shape@.take(j + 1)).drop_last() =~= base + shape@.take(j as int));
                assert((base + shape@.take(j + 1)).last() == shape@[j as int]);
            }
            xmin = crate::data::min_of(xmin, p.0);
            xmax = crate::data::max_of(xmax, p.0);
            ymin = crate::data::min_of(ymin, p.1);
            ymax = crate::data::max_of(ymax, p.1);
            zmin = crate::data::min_of(zmin, p.2);
            zmax = crate::data::max_of(zmax, p.2);
            j = j + 1;
        }
        proof {
            assert(shape@.take(shape@.len() as int) =~= shape@);
            lemma_points_take_step(shapes@, i as int);
        }
        i = i + 1;
    }
    proof {
        assert(shapes@.take(shapes@.len() as int) =~= shapes@);
        lemma_axis_min_le_max(all_shape_points(shapes@), 0);
        lemma_axis_min_le_max(all_shape_points(shapes@), 1);
        lemma_axis_min_le_max(all_shape_points(shapes@), 2);
    }
    (xmin, xmax - xmin, ymin, ymax - ymin, zmin, zmax - zmin)
}

/// The largest per-shape coordinate range on each axis: how wide a
/// single shape can be.  Empty shapes are skipped.
pub fn compress_shapes_stats(shapes: &Vec<Vec<P3>>) -> (r: (u64, u64, u64))
    ensures
        r.0 == shapes_range(shapes@, 0),
        r.1 == shapes_range(shapes@, 1),
        r.2 == shapes_range(shapes@, 2),
{
    let mut rangex: u64 = 0;
    let mut rangey: u64 = 0;
    let mut rangez: u64 = 0;
    let mut i: usize = 0;
    while i < shapes.len()
        invariant
            0 <= i <= shapes@.len(),
            rangex == shapes_range(shapes@.take(i as int), 0),
            rangey == shapes_range(shapes@.take(i as int), 1),
            rangez == shapes_range(shapes@.take(i as int), 2),
        decreases shapes@.len() - i,
    {
        proof {
            assert(shapes@.take(i + 1).drop_last() =~= shapes@.take(i as int));
            assert(shapes@.take(i + 1).last() == shapes@[i as int]);
        }
        let shape = &shapes[i];
        if shape.len() > 0 {
            let mut xmin: u64 = u64::MAX;
            let mut xmax: u64 = 0;
            let mut ymin: u64 = u64::MAX;
            let mut ymax: u64 = 0;
            let mut zmin: u64 = u64::MAX;
            let mut zmax: u64 = 0;
            let mut j: usize = 0;
            while j < shape.len()
                invariant
                    0 <= j <= shape@.len(),
                    shape@ == shapes@[i as int]@,
                    xmin == axis_min(shape@.take(j as int), 0),
                    xmax == axis_max(shape@.take(j as int), 0),
                    ymin == axis_min(shape@.take(j as int), 1),
                    ymax == axis_max(shape@.take(j as int), 1),
                    zmin == axis_min(shape@.take(j as int), 2),
                    zmax == axis_max(shape@.take(j as int), 2),
                decreases shape@.len() - j,
            {
                let p = shape[j];
                proof {
                    assert(shape@.take(j + 1).drop_last() =~= shape@.take(j as int));
                    assert(shape@.take(j + 1).last() == shape@[j as int]);
                }
                xmin = crate::data::min_of(xmin, p.0);
                xmax = crate::data::max_of(xmax, p.0);
                ymin = crate::data::min_of(ymin, p.1);
                ymax = crate::data::max_of(ymax, p.1);
                zmin = crate::data::min_of(zmin, p.2);
                zmax = crate::data::max_of(zmax, p.2);
                j = j + 1;
            }
            proof {
                assert(shape@.take(shape@.len() as int) =~= shape@);
                lemma_axis_min_le_max(shape@, 0);
                lemma_axis_min_le_max(shape@, 1);
                lemma_axis_min_le_max(shape@, 2);
            }
            rangex = crate::data::max_of(rangex, xmax - xmin);
            rangey = crate::data::max_of(rangey, ymax - ymin);
            rangez = crate::data::max_of(rangez, zmax - zmin);
        }
        i = i + 1;
    }
    proof {
        assert(shapes@.take(shapes@.len() as int) =~= shapes@);
    }
    (rangex, rangey, rangez)
}

/// The largest per-shape coordinate range on one axis over a shape
/// collection; empty shapes count for nothing.
pub open spec fn shapes_range(shapes: Seq<Vec<P3>>, axis: int) -> u64
    decreases shapes.len(),
{
    if shapes.len() == 0 {
        0
    } else {
        let pre = shapes_range(shapes.drop_last(), axis);
        if shapes.last()@.len() == 0 {
            pre
        } else {
            umax(
                pre,
                (axis_max(shapes.last()@, axis) - axis_min(shapes.last()@, axis)) as u64,
            )
        }
    }
}

/// How many consecutive repeated points the shapes hold, and how many
/// points follow another point at all: `(points after the first of
/// each shape, repeats among them)`.
pub fn compress_repeated_points_in_lines_stats(shapes: &Vec<Vec<P3>>) -> (r: (usize, usize))
    requires
        all_shape_points(shapes@).len() <= usize::MAX,
    ensures
        r.0 == follower_count(shapes@),
        r.1 == repeat_count(shapes@),
        r.1 <= r.0,
{
    let mut points: usize = 0;
    let mut repeated: usize = 0;
    let mut i: usize = 0;
    proof {
        assert(shapes@.take(0) =~= Seq::<Vec<P3>>::empty());
        assert(shapes@.skip(0) =~= shapes@);
    }
    while i < shapes.len()
        invariant
            0 <= i <= shapes@.len(),
            points == follower_count(shapes@.take(i as int)),
            repeated == repeat_count(shapes@.take(i as int)),
            repeated <= points,
            follower_count(shapes@.take(i as int)) + all_shape_points(
                shapes@.skip(i as int),
            ).len() <= usize::MAX,
        decreases shapes@.len() - i,
    {
        proof {
            assert(shapes@.take(i + 1).drop_last() =~= shapes@.take(i as int));
            assert(shapes@.take(i + 1).last() == shapes@[i as int]);
            lemma_follower_le_points(shapes@[i as int]@);
            assert(shapes@.skip(i as int).map_values(|s: Vec<P3>| s@).drop_first()
                =~= shapes@.skip(i + 1).map_values(|s: Vec<P3>| s@));
            assert(shapes@.skip(i as int).map_values(|s: Vec<P3>| s@).first() == shapes@[i
                as int]@);
        }
        let shape = &shapes[i];
        if shape.len() > 0 {
            let mut last = shape[0];
            let mut j: usize = 1;
            while j < shape.len()
                invariant
                    1 <= j <= shape@.len(),
                    shape@ == shapes@[i as int]@,
                    shape@.len() >= 1,
                    last == shape@[j - 1],
                    points == follower_count(shapes@.take(i as int)) + j - 1,
                    repeated == repeat_count(shapes@.take(i as int)) + shape_repeats(
                        shape@,
                        j as int,
                    ),
                    repeated <= points,
                    follower_count(shapes@.take(i as int)) + shape@.len() - 1 + all_shape_points(
                        shapes@.skip(i + 1),
                    ).len() <= usize::MAX,
                decreases shape@.len() - j,
            {
                let p = shape[j];
                points = points + 1;
                if p.0 == last.0 && p.1 == last.1 && p.2 == last.2 {
                    repeated = repeated + 1;
                }
                last = p;
                j = j + 1;
            }
        }
        i = i + 1;
    }
    proof {
        assert(shapes@.take(shapes@.len() as int) =~= shapes@);
    }
    (points, repeated)
}

/// Points with a predecessor in one shape: all but the first.
pub open spec fn follower_count(shapes: Seq<Vec<P3>>) -> int
    decreases shapes.len(),
{
    if shapes.len() == 0 {
        0
    } else {
        follower_count(shapes.drop_last()) + (if shapes.last()@.len() >= 1 {
            shapes.last()@.len() - 1
        } else {
            0
        })
    }
}

/// Repeats among the first `j` points of one shape: points equal to
/// their predecessor.
pub open spec fn shape_repeats(ps: Seq<P3>, j: int) -> int
    decreases j,
{
    if j <= 1 {
        0
    } else {
        shape_repeats(ps, j - 1) + (if ps[j - 1] == ps[j - 2] {
            1int
        } else {
            0int
        })
    }
}

/// Repeats over a whole shape collection.
pub open spec fn repeat_count(shapes: Seq<Vec<P3>>) -> int
    decreases shapes.len(),
{
    if shapes.len() == 0 {
        0
    } else {
        repeat_count(shapes.drop_last()) + shape_repeats(
            shapes.last()@,
            shapes.last()@.len() as int,
        )
    }
}

/// There are never more repeats than followers in one shape.
proof fn lemma_follower_le_points(ps: Seq<P3>)
    ensures
        forall|j: int| shape_repeats(ps, j) <= (if j >= 1 {
            j - 1
        } else {
            0
        }),
        shape_repeats(ps, ps.len() as int) >= 0,
    decreases ps.len(),
{
    assert forall|j: int| shape_repeats(ps, j) <= (if j >= 1 {
        j - 1
    } else {
        0
    }) by {
        lemma_shape_repeats_le(ps, j);
    }
    lemma_shape_repeats_le(ps, ps.len() as int);
}

proof fn lemma_shape_repeats_le(ps: Seq<P3>, j: int)
    ensures
        shape_repeats(ps, j) <= (if j >= 1 {
            j - 1
        } else {
            0
        }),
        shape_repeats(ps, j) >= 0,
    decreases j,
{
    if j > 1 {
        lemma_shape_repeats_le(ps, j - 1);
    }
}

/// Compression target widths.
#[derive(Copy, Clone, PartialEq, Eq, Structural, Debug)]
pub enum CompTarget {
    U8,
    U16,
    U32,
    NONE,
}

impl CompTarget {
    /// The name a report prints for this target.
    pub fn name(&self) -> (r: &'static str)
        ensures
            self is U8 ==> r@ == "u8"@,
            self is U16 ==> r@ == "u16"@,
            self is U32 ==> r@ == "u32"@,
            self is NONE ==> r@ == "none"@,
    {
        match self {
            CompTarget::U8 => "u8",
            CompTarget::U16 => "u16",
            CompTarget::U32 => "u32",
            CompTarget::NONE => "none",
        }
    }

    /// The largest value the target width can hold (`u64::MAX` when no
    /// compression applies).
    pub open spec fn max_value(self) -> u64 {
        match self {
            CompTarget::U8 => u8::MAX as u64,
            CompTarget::U16 => u16::MAX as u64,
            CompTarget::U32 => u32::MAX as u64,
            CompTarget::NONE => u64::MAX,
        }
    }
}

/// The smallest target width whose maximum exceeds the range `r`, or
/// no compression when even 32 bits cannot hold it.
pub open spec fn spec_target_of(r: u64) -> CompTarget {
    if r < u8::MAX as u64 {
        CompTarget::U8
    } else if r < u16::MAX as u64 {
        CompTarget::U16
    } else if r < u32::MAX as u64 {
        CompTarget::U32
    } else {
        CompTarget::NONE
    }
}

/// Pick the compression target: the largest per-axis range, and the
/// smallest integer width that can hold it.
pub fn target_compression_type(ranges: Ranges) -> (r: (u64, CompTarget))
    ensures
        r.0 == umax(ranges.1, umax(ranges.3, ranges.5)),
        r.1 == spec_target_of(r.0),
        // the chosen width is minimal: the range fits it, and no
        // narrower width holds the range
        r.1 != CompTarget::NONE ==> r.0 < r.1.max_value(),
        r.1 is U16 ==> r.0 >= u8::MAX,
        r.1 is U32 ==> r.0 >= u16::MAX,
        r.1 is NONE ==> r.0 >= u32::MAX,
{
    let rx = ranges.1;
    let ry = ranges.3;
    let rz = ranges.5;
    let max = crate::data::max_of(rx, crate::data::max_of(ry, rz));
    let target = if max < 255 {
        CompTarget::U8
    } else if max < 65535 {
        CompTarget::U16
    } else if max < 4294967295 {
        CompTarget::U32
    } else {
        CompTarget::NONE
    };
    (max, target)
}

/// The multiplier for a target: the target's maximum divided by the
/// range, so every shifted coordinate scaled by it still fits the
/// width.
pub fn target_multiplier(mr: u64, target: CompTarget) -> (m: u64)
    requires
        1 <= mr,
        mr <= target.max_value(),
    ensures
        m == target.max_value() / mr,
        m >= 1,
{
    let max: u64 = match target {
        CompTarget::U8 => 255,
        CompTarget::U16 => 65535,
        CompTarget::U32 => 4294967295,
        CompTarget::NONE => u64::MAX,
    };
    let m = max / mr;
    proof {
        assert(m >= 1) by (nonlinear_arith)
            requires
                m == max / mr,
                1 <= mr <= max,
        ;
    }
    m
}

/// Multiplier safety: the chosen multiplier scaled by the range never
/// leaves the target width, so every compressed value fits without
/// overflow.
pub proof fn lemma_multiplier_safety(mr: u64, target: CompTarget)
    requires
        1 <= mr,
        mr <= target.max_value(),
    ensures
        (target.max_value() / mr) * mr <= target.max_value(),
{
    assert((target.max_value() / mr) * mr <= target.max_value()) by (nonlinear_arith)
        requires
            1 <= mr <= target.max_value(),
    ;
}

/// The whole statistics package for one collection: per-axis offsets,
/// the multiplier, and the chosen target width.
pub open spec fn spec_global_range(ps: Seq<P3>) -> u64 {
    umax(
        (axis_max(ps, 0) - axis_min(ps, 0)) as u64,
        umax(
            (axis_max(ps, 1) - axis_min(ps, 1)) as u64,
            (axis_max(ps, 2) - axis_min(ps, 2)) as u64,
        ),
    )
}

pub fn info_package(shapes: &Vec<Vec<P3>>) -> (r: (u64, u64, u64, u64, CompTarget))
    requires
        all_shape_points(shapes@).len() >= 1,
        spec_global_range(all_shape_points(shapes@)) >= 1,
    ensures
        ({
            let ps = all_shape_points(shapes@);
            let range = spec_global_range(ps);
            &&& r.0 == axis_min(ps, 0)
            &&& r.1 == axis_min(ps, 1)
            &&& r.2 == axis_min(ps, 2)
            &&& r.4 == spec_target_of(range)
            &&& r.3 == r.4.max_value() / range
            &&& r.3 >= 1
        }),
{
    let ranges = compress_doubles_stats(shapes);
    let (mx, _rx, my, _ry, mz, _rz) = ranges;
    let (range, target) = target_compression_type(ranges);
    proof {
        assert(range <= target.max_value());
    }
    let multi = target_multiplier(range, target);
    (mx, my, mz, multi, target)
}


/// The flattened point list is nonempty exactly when some shape is.
proof fn lemma_points_nonempty(shapes: Seq<Vec<P3>>)
    ensures
        (all_shape_points(shapes).len() >= 1) <==> (exists|j: int|
            0 <= j < shapes.len() && (#[trigger] shapes[j])@.len() >= 1),
    decreases shapes.len(),
{
    if shapes.len() == 0 {
        assert(shapes.map_values(|s: Vec<P3>| s@) =~= Seq::<Seq<P3>>::empty());
    } else {
        lemma_points_nonempty(shapes.drop_last());
        lemma_points_take_step(shapes, shapes.len() - 1);
        assert(shapes.take(shapes.len() as int) =~= shapes);
        assert(shapes.take(shapes.len() - 1) =~= shapes.drop_last());
        if all_shape_points(shapes).len() >= 1 {
            if shapes.last()@.len() >= 1 {
                assert(shapes[shapes.len() - 1]@.len() >= 1);
            } else {
                let j = choose|j: int|
                    0 <= j < shapes.drop_last().len() && (#[trigger] shapes.drop_last()[j])@.len()
                        >= 1;
                assert(shapes[j]@.len() >= 1);
            }
        }
        if exists|j: int| 0 <= j < shapes.len() && (#[trigger] shapes[j])@.len() >= 1 {
            let j = choose|j: int| 0 <= j < shapes.len() && (#[trigger] shapes[j])@.len() >= 1;
            if j == shapes.len() - 1 {
            } else {
                assert(shapes.drop_last()[j]@.len() >= 1);
            }
        }
    }
}

/// Whether the shapes carry at least one point and a usable global
/// range: the conditions the statistics package asks for.  A caller
/// outside the verified world checks this before asking for the
/// package.
pub fn all_points_range_at_least_one(shapes: &Vec<Vec<P3>>) -> (r: bool)
    ensures
        r == (all_shape_points(shapes@).len() >= 1 && spec_global_range(all_shape_points(shapes@))
            >= 1),
{
    let mut found = false;
    let mut i: usize = 0;
    while i < shapes.len() && !found
        invariant
            0 <= i <= shapes@.len(),
            !found ==> forall|j: int| 0 <= j < i ==> (#[trigger] shapes@[j])@.len() == 0,
            found ==> exists|j: int| 0 <= j < shapes@.len() && (#[trigger] shapes@[j])@.len() >= 1,
        decreases shapes@.len() - i + (if found {
            0int
        } else {
            1int
        }),
    {
        if shapes[i].len() > 0 {
            found = true;
        }
        if !found {
            i = i + 1;
        }
    }
    proof {
        lemma_points_nonempty(shapes@);
    }
    if !found {
        return false;
    }
    let ranges = compress_doubles_stats(shapes);
    let max = crate::data::max_of(ranges.1, crate::data::max_of(ranges.3, ranges.5));
    max >= 1
}

} // verus!
