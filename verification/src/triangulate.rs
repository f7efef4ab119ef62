//! Ear-clipping triangulation of polygons with holes: ring cleaning,
//! orientation repair, grouping of inner rings under their enclosing
//! outer rings, hole bridging, and the clipping loop itself.
//!
//! All geometric predicates are evaluated exactly over the integer
//! coordinates (the compressed domain bounds every coordinate by
//! `u32::MAX`), so the sign tests the spec describes with real-number
//! formulas are decided without rounding.

use crate::data::{
    sentinel_box, start_box, stretched2, umax, CustomShape, HasBB, BB, P2, P3,
};
use crate::logger::{bumped_times, logs_issue, Issue, Logger};
use vstd::prelude::*;

verus! {

/// A triangle mesh: vertices, a triangle list of 16-bit indices, a
/// style id and a bounding box.
pub struct PolyTriangle {
    pub vertices: Vec<P2>,
    pub indices: Vec<u16>,
    pub style: usize,
    pub bb: BB,
}

impl CustomShape for PolyTriangle {
    open spec fn points_len_spec(&self) -> nat {
        self.vertices@.len()
    }

    fn points_len(&self) -> (r: usize)
        ensures
            r == self.points_len_spec(),
    {
        self.vertices.len()
    }
}

impl HasBB for PolyTriangle {
    open spec fn bb_spec(&self) -> BB {
        self.bb
    }

    fn bounding_box(&self) -> (r: &BB)
        ensures
            *r == self.bb_spec(),
    {
        &self.bb
    }

    fn set_bounding_box(&mut self, bb: BB)
        ensures
            final(self).bb_spec() == bb,
    {
        self.bb = bb;
    }
}

impl PolyTriangle {
    /// Recompute the box from the vertices alone, as the other shapes
    /// do.
    pub fn stretch_bb(&mut self)
        ensures
            final(self).vertices@ == old(self).vertices@,
            final(self).indices@ == old(self).indices@,
            final(self).style == old(self).style,
            old(self).vertices@.len() == 0 ==> final(self).bb == old(self).bb,
            old(self).vertices@.len() > 0 ==> final(self).bb == stretched2(
                sentinel_box(),
                old(self).vertices@,
            ),
    {
        if self.vertices.len() == 0 {
            return ;
        }
        let mut bb = start_box();
        let mut i: usize = 0;
        while i < self.vertices.len()
            invariant
                0 <= i <= self.vertices.len(),
                self.vertices@ == old(self).vertices@,
                bb == stretched2(sentinel_box(), self.vertices@.take(i as int)),
            decreases self.vertices.len() - i,
        {
            let p = self.vertices[i];
            crate::data::stretch_bound2(p, &mut bb);
            proof {
                assert(self.vertices@.take(i + 1).drop_last() =~= self.vertices@.take(i as int));
                assert(self.vertices@.take(i + 1).last() == self.vertices@[i as int]);
            }
            i = i + 1;
        }
        proof {
            assert(self.vertices@.take(self.vertices@.len() as int) =~= self.vertices@);
        }
        self.bb = bb;
    }
}

/// Every coordinate of the point fits the 32-bit compressed domain.
pub open spec fn pt_bounded(p: P3) -> bool {
    p.0 <= u32::MAX && p.1 <= u32::MAX && p.2 <= u32::MAX
}

/// Every point of the ring fits the 32-bit compressed domain.
pub open spec fn ring_bounded(ring: Seq<P3>) -> bool {
    forall|i: int| 0 <= i < ring.len() ==> pt_bounded(#[trigger] ring[i])
}

/// Bound on a product of two bounded factors.
proof fn lemma_prod_bound(x: int, y: int, m: int, m2: int)
    requires
        -m <= x <= m,
        -m2 <= y <= m2,
        m >= 0,
        m2 >= 0,
    ensures
        -(m * m2) <= x * y <= m * m2,
{
    assert(-(m * m2) <= x * y <= m * m2) by (nonlinear_arith)
        requires
            -m <= x <= m,
            -m2 <= y <= m2,
            m >= 0,
            m2 >= 0,
    ;
}

/// The signed cross product of the corner `a -> b -> c`, positive when
/// the corner turns one way and negative the other.
pub open spec fn corner_cross(a: P3, b: P3, c: P3) -> int {
    (b.0 - a.0) * (c.1 - b.1) - (c.0 - b.0) * (b.1 - a.1)
}

/// The corner at `b` is reflex: its cross product is positive (rings
/// are clockwise by construction when this is asked).
pub open spec fn spec_is_reflex(a: P3, b: P3, c: P3) -> bool {
    corner_cross(a, b, c) > 0
}

/// `p` lies inside the triangle `p0 p1 p2`, by the sign of exact
/// barycentric coordinates; a point equal to a triangle corner does not
/// count as inside, nor does any point when the triangle is degenerate.
pub open spec fn spec_inside_triangle(p: P3, p0: P3, p1: P3, p2: P3) -> bool {
    let d = (p1.1 - p2.1) * (p0.0 - p2.0) + (p2.0 - p1.0) * (p0.1 - p2.1);
    let na = (p1.1 - p2.1) * (p.0 - p2.0) + (p2.0 - p1.0) * (p.1 - p2.1);
    let nb = (p2.1 - p0.1) * (p.0 - p2.0) + (p0.0 - p2.0) * (p.1 - p2.1);
    if (p.0 == p0.0 && p.1 == p0.1 && p.2 == p0.2) || (p.0 == p1.0 && p.1 == p1.1 && p.2 == p1.2)
        || (p.0 == p2.0 && p.1 == p2.1 && p.2 == p2.2) {
        false
    } else if d == 0 {
        false
    } else if d > 0 {
        0 <= na && na <= d && 0 <= nb && nb <= d && na + nb <= d
    } else {
        d <= na && na <= 0 && d <= nb && nb <= 0 && d <= na + nb
    }
}

/// The horizontal ray from `p` to the right crosses the edge `a -> b`:
/// the edge is not horizontal, the crossing parameter lies in `[0, 1]`
/// but not within one thousandth of the grazing end (the bottom end of
/// the edge), and the crossing point is not left of `p`.
pub open spec fn spec_edge_crossing(a: P3, b: P3, p: P3) -> bool {
    let dy = b.1 - a.1;
    let n = p.1 - a.1;
    let q = (a.0 - p.0) * dy + n * (b.0 - a.0);
    if dy == 0 {
        false
    } else if dy > 0 {
        0 <= n && n <= dy && !(1000 * n < dy) && q >= 0
    } else {
        dy <= n && n <= 0 && !(1000 * (if n - dy >= 0 {
            n - dy
        } else {
            dy - n
        }) < -dy) && q <= 0
    }
}

/// How many of the first `k` edges of the ring the rightward ray from
/// `p` crosses; edge `i` runs from point `i` to point `i + 1`, the last
/// edge closing back to point `0`.
pub open spec fn crossings_upto(ring: Seq<P3>, p: P3, k: int) -> int
    decreases k,
{
    if k <= 0 {
        0
    } else {
        crossings_upto(ring, p, k - 1) + (if spec_edge_crossing(
            ring[k - 1],
            ring[(k % ring.len() as int)],
            p,
        ) {
            1int
        } else {
            0int
        })
    }
}

/// `p` lies inside the ring by even-odd ray casting: the rightward ray
/// crosses the ring's edges an odd number of times.
pub open spec fn spec_inside_polygon(ring: Seq<P3>, p: P3) -> bool {
    crossings_upto(ring, p, ring.len() as int) % 2 == 1
}

/// One term of the signed-area sum: `(x1 - x0) * (y1 + y0)` for the
/// edge `a -> b`.
pub open spec fn edge_term(a: P3, b: P3) -> int {
    (b.0 - a.0) * (b.1 + a.1)
}

/// The sum of the first `k` edge terms of the ring (the last edge
/// closes back to point `0`).
pub open spec fn signed_sum_upto(ring: Seq<P3>, k: int) -> int
    decreases k,
{
    if k <= 0 {
        0
    } else {
        signed_sum_upto(ring, k - 1) + edge_term(ring[k - 1], ring[(k % ring.len() as int)])
    }
}

/// The full signed-area sum of the ring.
pub open spec fn signed_sum(ring: Seq<P3>) -> int {
    signed_sum_upto(ring, ring.len() as int)
}

/// Whether the corner `a -> b -> c` is reflex, decided exactly.
fn is_reflex_corner(a: P3, b: P3, c: P3) -> (r: bool)
    requires
        pt_bounded(a),
        pt_bounded(b),
        pt_bounded(c),
    ensures
        r == spec_is_reflex(a, b, c),
{
    let ax = a.0 as i128;
    let ay = a.1 as i128;
    let bx = b.0 as i128;
    let by = b.1 as i128;
    let cx = c.0 as i128;
    let cy = c.1 as i128;
    proof {
        lemma_prod_bound(bx - ax, cy - by, 0x1_0000_0000, 0x1_0000_0000);
        lemma_prod_bound(cx - bx, by - ay, 0x1_0000_0000, 0x1_0000_0000);
    }
    (bx - ax) * (cy - by) - (cx - bx) * (by - ay) > 0
}

/// Whether `p` lies inside the triangle `p0 p1 p2`, decided exactly.
fn is_inside_triangle(p: P3, p0: P3, p1: P3, p2: P3) -> (r: bool)
    requires
        pt_bounded(p),
        pt_bounded(p0),
        pt_bounded(p1),
        pt_bounded(p2),
    ensures
        r == spec_inside_triangle(p, p0, p1, p2),
{
    if (p.0 == p0.0 && p.1 == p0.1 && p.2 == p0.2) || (p.0 == p1.0 && p.1 == p1.1 && p.2 == p1.2)
        || (p.0 == p2.0 && p.1 == p2.1 && p.2 == p2.2) {
        return false;
    }
    let x0 = p.0 as i128;
    let y0 = p.1 as i128;
    let x1 = p0.0 as i128;
    let y1 = p0.1 as i128;
    let x2 = p1.0 as i128;
    let y2 = p1.1 as i128;
    let x3 = p2.0 as i128;
    let y3 = p2.1 as i128;
    proof {
        lemma_prod_bound(y2 - y3, x1 - x3, 0x1_0000_0000, 0x1_0000_0000);
        lemma_prod_bound(x3 - x2, y1 - y3, 0x1_0000_0000, 0x1_0000_0000);
        lemma_prod_bound(y2 - y3, x0 - x3, 0x1_0000_0000, 0x1_0000_0000);
        lemma_prod_bound(x3 - x2, y0 - y3, 0x1_0000_0000, 0x1_0000_0000);
        lemma_prod_bound(y3 - y1, x0 - x3, 0x1_0000_0000, 0x1_0000_0000);
        lemma_prod_bound(x1 - x3, y0 - y3, 0x1_0000_0000, 0x1_0000_0000);
    }
    let d = (y2 - y3) * (x1 - x3) + (x3 - x2) * (y1 - y3);
    let na = (y2 - y3) * (x0 - x3) + (x3 - x2) * (y0 - y3);
    let nb = (y3 - y1) * (x0 - x3) + (x1 - x3) * (y0 - y3);
    if d == 0 {
        false
    } else if d > 0 {
        0 <= na && na <= d && 0 <= nb && nb <= d && na + nb <= d
    } else {
        d <= na && na <= 0 && d <= nb && nb <= 0 && d <= na + nb
    }
}

/// Whether the rightward ray from `p` crosses the edge `a -> b`,
/// decided exactly.
fn edge_crossing(a: P3, b: P3, p: P3) -> (r: bool)
    requires
        pt_bounded(a),
        pt_bounded(b),
        pt_bounded(p),
    ensures
        r == spec_edge_crossing(a, b, p),
{
    let ax = a.0 as i128;
    let ay = a.1 as i128;
    let bx = b.0 as i128;
    let by = b.1 as i128;
    let px = p.0 as i128;
    let py = p.1 as i128;
    let dy = by - ay;
    let n = py - ay;
    if dy == 0 {
        return false;
    }
    proof {
        lemma_prod_bound(ax - px as int, dy as int, 0x1_0000_0000, 0x1_0000_0000);
        lemma_prod_bound(n as int, bx - ax as int, 0x1_0000_0000, 0x1_0000_0000);
    }
    let q = (ax - px) * dy + n * (bx - ax);
    if dy > 0 {
        0 <= n && n <= dy && !(1000 * n < dy) && q >= 0
    } else {
        let g = if n - dy >= 0 {
            n - dy
        } else {
            dy - n
        };
        dy <= n && n <= 0 && !(1000 * g < -dy) && q <= 0
    }
}

/// Whether `p` lies inside the ring, by exact even-odd ray casting.
fn is_inside_polygon(ring: &Vec<P3>, p: P3) -> (r: bool)
    requires
        ring_bounded(ring@),
        pt_bounded(p),
    ensures
        r == spec_inside_polygon(ring@, p),
{
    let n = ring.len();
    let mut intersects: u64 = 0;
    let mut i: usize = 0;
    while i < n
        invariant
            0 <= i <= n == ring@.len(),
            ring_bounded(ring@),
            pt_bounded(p),
            intersects == crossings_upto(ring@, p, i as int),
            intersects <= i,
        decreases n - i,
    {
        let a = ring[i];
        let b = ring[if i + 1 == n {
            0
        } else {
            i + 1
        }];
        proof {
            if i + 1 == n {
                vstd::arithmetic::div_mod::lemma_mod_self_0(ring@.len() as int);
            } else {
                vstd::arithmetic::div_mod::lemma_small_mod((i + 1) as nat, ring@.len() as nat);
            }
        }
        if edge_crossing(a, b, p) {
            intersects = intersects + 1;
        }
        i = i + 1;
    }
    intersects % 2 == 1
}

/// The signed-area sum of a ring, evaluated exactly.
fn ring_signed_sum(ring: &Vec<P3>) -> (r: i128)
    requires
        ring_bounded(ring@),
        ring@.len() <= u32::MAX,
    ensures
        r == signed_sum(ring@),
{
    let n = ring.len();
    let mut sum: i128 = 0;
    let mut i: usize = 0;
    while i < n
        invariant
            0 <= i <= n == ring@.len(),
            n <= u32::MAX,
            ring_bounded(ring@),
            sum == signed_sum_upto(ring@, i as int),
            -(0x2_0000_0000_0000_0000i128) * (i as int) <= sum <= (0x2_0000_0000_0000_0000i128) * (
            i as int),
        decreases n - i,
    {
        let a = ring[i];
        let b = ring[if i + 1 == n {
            0
        } else {
            i + 1
        }];
        proof {
            if i + 1 == n {
                vstd::arithmetic::div_mod::lemma_mod_self_0(ring@.len() as int);
            } else {
                vstd::arithmetic::div_mod::lemma_small_mod((i + 1) as nat, ring@.len() as nat);
            }
            lemma_prod_bound(
                b.0 as int - a.0 as int,
                b.1 as int + a.1 as int,
                0x1_0000_0000,
                0x2_0000_0000,
            );
        }
        let term = (b.0 as i128 - a.0 as i128) * (b.1 as i128 + a.1 as i128);
        sum = sum + term;
        i = i + 1;
    }
    sum
}

/// Whether the ring is clockwise: its signed-area sum is positive.
pub fn is_clockwise(ring: &Vec<P3>) -> (r: bool)
    requires
        ring_bounded(ring@),
        ring@.len() <= u32::MAX,
    ensures
        r == (signed_sum(ring@) > 0),
{
    ring_signed_sum(ring) > 0
}


/// `s` with consecutive duplicate points removed (the first of each run
/// stays).
pub open spec fn dedup_adj(s: Seq<P3>) -> Seq<P3>
    decreases s.len(),
{
    if s.len() <= 1 {
        s
    } else {
        let pre = dedup_adj(s.drop_last());
        if s.last() == s[s.len() - 2] {
            pre
        } else {
            pre.push(s.last())
        }
    }
}

/// Removing consecutive duplicates keeps the first and last points and
/// never empties a nonempty ring.
pub proof fn lemma_dedup_adj_ends(s: Seq<P3>)
    requires
        s.len() >= 1,
    ensures
        dedup_adj(s).len() >= 1,
        dedup_adj(s).last() == s.last(),
        dedup_adj(s).first() == s.first(),
        dedup_adj(s).len() <= s.len(),
    decreases s.len(),
{
    if s.len() > 1 {
        lemma_dedup_adj_ends(s.drop_last());
    }
}

/// Remove consecutive duplicate points of one ring.
fn dedup_ring(ring: Vec<P3>) -> (r: Vec<P3>)
    requires
        ring@.len() >= 1,
    ensures
        r@ == dedup_adj(ring@),
{
    let mut out: Vec<P3> = Vec::new();
    let mut last = ring[0];
    out.push(last);
    proof {
        assert(ring@.take(1) =~= seq![ring@[0]]);
        assert(dedup_adj(ring@.take(1)) == ring@.take(1));
        assert(out@ =~= dedup_adj(ring@.take(1)));
    }
    let mut i: usize = 1;
    while i < ring.len()
        invariant
            1 <= i <= ring@.len(),
            out@ == dedup_adj(ring@.take(i as int)),
            last == ring@[i - 1],
            out@.len() >= 1,
            out@.last() == last,
        decreases ring@.len() - i,
    {
        let p = ring[i];
        proof {
            assert(ring@.take(i + 1).drop_last() =~= ring@.take(i as int));
            assert(ring@.take(i + 1).last() == ring@[i as int]);
            assert(ring@.take(i + 1)[i - 1] == ring@[i - 1]);
        }
        if !(last.0 == p.0 && last.1 == p.1 && last.2 == p.2) {
            last = p;
            out.push(p);
        }
        i = i + 1;
    }
    proof {
        assert(ring@.take(ring@.len() as int) =~= ring@);
    }
    out
}

/// The rings of `rings` that are nonempty, each with consecutive
/// duplicates removed, in order.
pub open spec fn cleaned_rings(rings: Seq<Seq<P3>>) -> Seq<Seq<P3>>
    decreases rings.len(),
{
    if rings.len() == 0 {
        Seq::empty()
    } else {
        let pre = cleaned_rings(rings.drop_last());
        if rings.last().len() == 0 {
            pre
        } else {
            pre.push(dedup_adj(rings.last()))
        }
    }
}

/// Clean one collection of rings: drop empty rings, remove consecutive
/// duplicate points.
fn clean_ring_collection(rings: Vec<Vec<P3>>) -> (r: Vec<Vec<P3>>)
    ensures
        r@.map_values(|v: Vec<P3>| v@) == cleaned_rings(rings@.map_values(|v: Vec<P3>| v@)),
{
    let ghost rv = rings@.map_values(|v: Vec<P3>| v@);
    let mut rings = rings;
    let mut out: Vec<Vec<P3>> = Vec::new();
    let mut i: usize = 0;
    proof {
        assert(rv.take(0) =~= Seq::<Seq<P3>>::empty());
        assert(out@.map_values(|v: Vec<P3>| v@) =~= cleaned_rings(rv.take(0)));
    }
    while i < rings.len()
        invariant
            0 <= i <= rings@.len(),
            rings@.len() == rv.len(),
            forall|j: int| i <= j < rv.len() ==> (#[trigger] rings@[j])@ == rv[j],
            out@.map_values(|v: Vec<P3>| v@) == cleaned_rings(rv.take(i as int)),
        decreases rings@.len() - i,
    {
        let mut ring: Vec<P3> = Vec::new();
        core::mem::swap(&mut ring, &mut rings[i]);
        proof {
            assert(rv.take(i + 1).drop_last() =~= rv.take(i as int));
            assert(rv.take(i + 1).last() == rv[i as int]);
        }
        if ring.len() > 0 {
            let cleaned = dedup_ring(ring);
            out.push(cleaned);
            proof {
                assert(out@.map_values(|v: Vec<P3>| v@) =~= cleaned_rings(rv.take(i as int)).push(
                    dedup_adj(rv[i as int]),
                ));
            }
        }
        i = i + 1;
    }
    proof {
        assert(rv.take(rv.len() as int) =~= rv);
    }
    out
}

/// The signed-area sum of the first `k` edges of a reversed ring equals
/// the negated sum of the matching edges at the far end of the original.
proof fn lemma_rev_partial(ring: Seq<P3>, k: int)
    requires
        ring.len() >= 1,
        0 <= k <= ring.len() - 1,
    ensures
        signed_sum_upto(ring.reverse(), k) == -(signed_sum_upto(ring, ring.len() - 1)
            - signed_sum_upto(ring, ring.len() - 1 - k)),
    decreases k,
{
    let n = ring.len() as int;
    let r = ring.reverse();
    if k > 0 {
        lemma_rev_partial(ring, k - 1);
        vstd::arithmetic::div_mod::lemma_small_mod(k as nat, n as nat);
        vstd::arithmetic::div_mod::lemma_small_mod((n - k) as nat, n as nat);
        assert(r[k - 1] == ring[n - k]);
        assert(r[k] == ring[n - 1 - k]);
        let a = ring[n - 1 - k];
        let b = ring[n - k];
        assert(edge_term(b, a) == -edge_term(a, b)) by (nonlinear_arith);
        assert(signed_sum_upto(ring, n - k) == signed_sum_upto(ring, n - 1 - k) + edge_term(
            ring[n - k - 1],
            ring[n - k],
        ));
    }
}

/// Reversing a ring negates its signed-area sum.
pub proof fn lemma_signed_sum_reverse(ring: Seq<P3>)
    ensures
        signed_sum(ring.reverse()) == -signed_sum(ring),
{
    let n = ring.len() as int;
    let r = ring.reverse();
    if n == 0 {
        assert(r.len() == 0);
    } else {
        lemma_rev_partial(ring, n - 1);
        vstd::arithmetic::div_mod::lemma_mod_self_0(n);
        assert(r[n - 1] == ring[0]);
        assert(r[0] == ring[n - 1]);
        let a = ring[n - 1];
        let b = ring[0];
        assert(edge_term(b, a) == -edge_term(a, b)) by (nonlinear_arith);
        assert(signed_sum_upto(r, n) == signed_sum_upto(r, n - 1) + edge_term(r[n - 1], r[0]));
        assert(signed_sum_upto(ring, n) == signed_sum_upto(ring, n - 1) + edge_term(
            ring[n - 1],
            ring[0],
        ));
    }
}

/// Reverse a ring.
fn reversed_ring(v: Vec<P3>) -> (r: Vec<P3>)
    ensures
        r@ == v@.reverse(),
{
    let mut r: Vec<P3> = Vec::new();
    let mut i: usize = v.len();
    while i > 0
        invariant
            0 <= i <= v@.len(),
            r@.len() == v@.len() - i,
            forall|j: int| 0 <= j < r@.len() ==> #[trigger] r@[j] == v@[v@.len() - 1 - j],
        decreases i,
    {
        i = i - 1;
        r.push(v[i]);
    }
    proof {
        assert(r@ =~= v@.reverse());
    }
    r
}

/// Force every outer ring clockwise (positive signed-area sum) and
/// every inner ring counter-clockwise, reversing rings as needed.
/// Rings whose signed sum is zero are left as they are; every other
/// ring ends with the sign its role demands.
pub fn fix_order(polygon: &mut crate::data::PolygonZ)
    requires
        forall|k: int|
            0 <= k < old(polygon).outers@.len() ==> ring_bounded(
                (#[trigger] old(polygon).outers@[k])@,
            ) && (old(polygon).outers@[k])@.len() <= u32::MAX,
        forall|k: int|
            0 <= k < old(polygon).inners@.len() ==> ring_bounded(
                (#[trigger] old(polygon).inners@[k])@,
            ) && (old(polygon).inners@[k])@.len() <= u32::MAX,
    ensures
        final(polygon).style == old(polygon).style,
        final(polygon).bb == old(polygon).bb,
        final(polygon).outers@.len() == old(polygon).outers@.len(),
        final(polygon).inners@.len() == old(polygon).inners@.len(),
        forall|k: int|
            0 <= k < old(polygon).outers@.len() ==> (#[trigger] final(polygon).outers@[k])@ == (
            if signed_sum((old(polygon).outers@[k])@) > 0 {
                (old(polygon).outers@[k])@
            } else {
                (old(polygon).outers@[k])@.reverse()
            }),
        forall|k: int|
            0 <= k < old(polygon).inners@.len() ==> (#[trigger] final(polygon).inners@[k])@ == (
            if signed_sum((old(polygon).inners@[k])@) > 0 {
                (old(polygon).inners@[k])@.reverse()
            } else {
                (old(polygon).inners@[k])@
            }),
        // orientation repair: every ring with nonzero signed area ends
        // clockwise if outer, counter-clockwise if inner
        forall|k: int|
            0 <= k < old(polygon).outers@.len() && signed_sum((old(polygon).outers@[k])@) != 0
                ==> signed_sum((#[trigger] final(polygon).outers@[k])@) > 0,
        forall|k: int|
            0 <= k < old(polygon).inners@.len() && signed_sum((old(polygon).inners@[k])@) != 0
                ==> signed_sum((#[trigger] final(polygon).inners@[k])@) < 0,
{
    let mut i: usize = 0;
    while i < polygon.outers.len()
        invariant
            0 <= i <= polygon.outers@.len(),
            polygon.style == old(polygon).style,
            polygon.bb == old(polygon).bb,
            polygon.inners@ == old(polygon).inners@,
            polygon.outers@.len() == old(polygon).outers@.len(),
            forall|k2: int|
                0 <= k2 < old(polygon).outers@.len() ==> ring_bounded(
                    (#[trigger] old(polygon).outers@[k2])@,
                ) && (old(polygon).outers@[k2])@.len() <= u32::MAX,
            forall|k2: int|
                0 <= k2 < old(polygon).inners@.len() ==> ring_bounded(
                    (#[trigger] old(polygon).inners@[k2])@,
                ) && (old(polygon).inners@[k2])@.len() <= u32::MAX,

            forall|k: int|
                i <= k < old(polygon).outers@.len() ==> #[trigger] polygon.outers@[k] == old(
                    polygon,
                ).outers@[k],
            forall|k: int|
                0 <= k < i ==> (#[trigger] polygon.outers@[k])@ == (if signed_sum(
                    (old(polygon).outers@[k])@,
                ) > 0 {
                    (old(polygon).outers@[k])@
                } else {
                    (old(polygon).outers@[k])@.reverse()
                }),
        decreases polygon.outers@.len() - i,
    {
        let mut ring: Vec<P3> = Vec::new();
        core::mem::swap(&mut ring, &mut polygon.outers[i]);
        if !is_clockwise(&ring) {
            ring = reversed_ring(ring);
        }
        core::mem::swap(&mut ring, &mut polygon.outers[i]);
        i = i + 1;
    }
    let mut k: usize = 0;
    while k < polygon.inners.len()
        invariant
            0 <= k <= polygon.inners@.len(),
            polygon.style == old(polygon).style,
            polygon.bb == old(polygon).bb,
            polygon.inners@.len() == old(polygon).inners@.len(),
            polygon.outers@.len() == old(polygon).outers@.len(),
            forall|k2: int|
                0 <= k2 < old(polygon).outers@.len() ==> ring_bounded(
                    (#[trigger] old(polygon).outers@[k2])@,
                ) && (old(polygon).outers@[k2])@.len() <= u32::MAX,
            forall|k2: int|
                0 <= k2 < old(polygon).inners@.len() ==> ring_bounded(
                    (#[trigger] old(polygon).inners@[k2])@,
                ) && (old(polygon).inners@[k2])@.len() <= u32::MAX,

            forall|k2: int|
                0 <= k2 < old(polygon).outers@.len() ==> (#[trigger] polygon.outers@[k2])@ == (
                if signed_sum((old(polygon).outers@[k2])@) > 0 {
                    (old(polygon).outers@[k2])@
                } else {
                    (old(polygon).outers@[k2])@.reverse()
                }),
            forall|k2: int|
                k <= k2 < old(polygon).inners@.len() ==> #[trigger] polygon.inners@[k2] == old(
                    polygon,
                ).inners@[k2],
            forall|k2: int|
                0 <= k2 < k ==> (#[trigger] polygon.inners@[k2])@ == (if signed_sum(
                    (old(polygon).inners@[k2])@,
                ) > 0 {
                    (old(polygon).inners@[k2])@.reverse()
                } else {
                    (old(polygon).inners@[k2])@
                }),
        decreases polygon.inners@.len() - k,
    {
        let mut ring: Vec<P3> = Vec::new();
        core::mem::swap(&mut ring, &mut polygon.inners[k]);
        if is_clockwise(&ring) {
            ring = reversed_ring(ring);
        }
        core::mem::swap(&mut ring, &mut polygon.inners[k]);
        k = k + 1;
    }
    proof {
        assert forall|k2: int|
            0 <= k2 < old(polygon).outers@.len() && signed_sum((old(polygon).outers@[k2])@) != 0
                implies signed_sum((#[trigger] final(polygon).outers@[k2])@) > 0 by {
            if signed_sum((old(polygon).outers@[k2])@) <= 0 {
                lemma_signed_sum_reverse((old(polygon).outers@[k2])@);
            }
        }
        assert forall|k2: int|
            0 <= k2 < old(polygon).inners@.len() && signed_sum((old(polygon).inners@[k2])@) != 0
                implies signed_sum((#[trigger] final(polygon).inners@[k2])@) < 0 by {
            if signed_sum((old(polygon).inners@[k2])@) > 0 {
                lemma_signed_sum_reverse((old(polygon).inners@[k2])@);
            }
        }
    }
}


/// The largest x coordinate of any point of the ring (zero for an
/// empty ring).
pub open spec fn ring_max_x(ring: Seq<P3>) -> u64
    decreases ring.len(),
{
    if ring.len() == 0 {
        0
    } else {
        umax(ring_max_x(ring.drop_last()), ring.last().0)
    }
}

/// The largest x coordinate of any point of the ring.
pub fn rightmost(inner: &Vec<P3>) -> (r: u64)
    ensures
        r == ring_max_x(inner@),
{
    let mut r: u64 = 0;
    let mut i: usize = 0;
    while i < inner.len()
        invariant
            0 <= i <= inner@.len(),
            r == ring_max_x(inner@.take(i as int)),
        decreases inner@.len() - i,
    {
        proof {
            assert(inner@.take(i + 1).drop_last() =~= inner@.take(i as int));
            assert(inner@.take(i + 1).last() == inner@[i as int]);
        }
        if inner[i].0 > r {
            r = inner[i].0;
        }
        i = i + 1;
    }
    proof {
        assert(inner@.take(inner@.len() as int) =~= inner@);
    }
    r
}

/// Total room the holes need once bridged into an outer ring: each
/// inner ring contributes its points plus the three bridge vertices.
pub open spec fn inners_total(inns: Seq<Seq<P3>>) -> int
    decreases inns.len(),
{
    if inns.len() == 0 {
        0
    } else {
        inners_total(inns.drop_last()) + inns.last().len() + 3
    }
}

/// Inserting a ring anywhere adds exactly its own contribution.
proof fn lemma_inners_total_insert(inns: Seq<Seq<P3>>, i: int, v: Seq<P3>)
    requires
        0 <= i <= inns.len(),
    ensures
        inners_total(inns.insert(i, v)) == inners_total(inns) + v.len() + 3,
    decreases inns.len(),
{
    if i == inns.len() {
        assert(inns.insert(i, v).drop_last() =~= inns);
        assert(inns.insert(i, v).last() == v);
    } else {
        assert(inns.insert(i, v).drop_last() =~= inns.drop_last().insert(i, v));
        assert(inns.insert(i, v).last() == inns.last());
        lemma_inners_total_insert(inns.drop_last(), i, v);
    }
}

/// Sort the inner rings descending by their rightmost x coordinate.
/// An inner with the same key as an earlier one ends up before it.
fn sort_inners_desc(inners: Vec<Vec<P3>>) -> (r: Vec<Vec<P3>>)
    ensures
        r@.len() == inners@.len(),
        r@.to_multiset() == inners@.to_multiset(),
        inners_total(r@.map_values(|v: Vec<P3>| v@)) == inners_total(
            inners@.map_values(|v: Vec<P3>| v@),
        ),
        forall|i: int, j: int|
            0 <= i <= j < r@.len() ==> ring_max_x((#[trigger] r@[i])@) >= ring_max_x(
                (#[trigger] r@[j])@,
            ),
{
    broadcast use vstd::seq_lib::to_multiset_build;
    broadcast use vstd::seq_lib::to_multiset_insert;

    let ghost inv = inners@;
    let mut inners = inners;
    let mut r: Vec<Vec<P3>> = Vec::new();
    let mut i: usize = 0;
    proof {
        assert(inv.take(0) =~= Seq::<Vec<P3>>::empty());
        assert(r@.to_multiset() =~= inv.take(0).to_multiset());
        assert(r@.map_values(|v: Vec<P3>| v@) =~= Seq::<Seq<P3>>::empty());
        assert(inv.take(0).map_values(|v: Vec<P3>| v@) =~= Seq::<Seq<P3>>::empty());
    }
    while i < inners.len()
        invariant
            0 <= i <= inv.len(),
            inners@.len() == inv.len(),
            forall|j: int| i <= j < inv.len() ==> #[trigger] inners@[j] == inv[j],
            r@.len() == i,
            r@.to_multiset() == inv.take(i as int).to_multiset(),
            inners_total(r@.map_values(|v: Vec<P3>| v@)) == inners_total(
                inv.take(i as int).map_values(|v: Vec<P3>| v@),
            ),
            forall|a: int, b: int|
                0 <= a <= b < r@.len() ==> ring_max_x((#[trigger] r@[a])@) >= ring_max_x(
                    (#[trigger] r@[b])@,
                ),
        decreases inv.len() - i,
    {
        let mut el: Vec<P3> = Vec::new();
        core::mem::swap(&mut el, &mut inners[i]);
        let key = rightmost(&el);
        let mut pos: usize = 0;
        while pos < r.len() && rightmost(&r[pos]) > key
            invariant
                0 <= pos <= r@.len(),
                key == ring_max_x(el@),
                forall|a: int| 0 <= a < pos ==> ring_max_x((#[trigger] r@[a])@) > key,
            decreases r@.len() - pos,
        {
            pos = pos + 1;
        }
        let ghost r_pre = r@;
        r.insert(pos, el);
        proof {
            assert(inv.take(i + 1).drop_last() =~= inv.take(i as int));
            assert(inv.take(i + 1).last() == inv[i as int]);
            assert(inv.take(i + 1).map_values(|v: Vec<P3>| v@).drop_last() =~= inv.take(
                i as int,
            ).map_values(|v: Vec<P3>| v@));
            assert(inv.take(i + 1).map_values(|v: Vec<P3>| v@).last() == inv[i as int]@);
            lemma_inners_total_insert(
                r_pre.map_values(|v: Vec<P3>| v@),
                pos as int,
                el@,
            );
            assert(r@.map_values(|v: Vec<P3>| v@) =~= r_pre.map_values(|v: Vec<P3>| v@).insert(
                pos as int,
                el@,
            ));
            assert(inv.take(i + 1) =~= inv.take(i as int).push(inv[i as int]));
            vstd::seq_lib::to_multiset_build(inv.take(i as int), inv[i as int]);
            vstd::seq_lib::to_multiset_insert(r_pre, pos as int, el);
            assert(r@ == r_pre.insert(pos as int, el));
            assert forall|a: int, b: int|
                0 <= a <= b < r@.len() implies ring_max_x((#[trigger] r@[a])@) >= ring_max_x(
                    (#[trigger] r@[b])@,
                ) by {
                if a < pos {
                    assert(r@[a] == r_pre[a]);
                }
                if b < pos {
                    assert(r@[b] == r_pre[b]);
                }
                if a > pos {
                    assert(r@[a] == r_pre[a - 1]);
                }
                if b > pos {
                    assert(r@[b] == r_pre[b - 1]);
                }
                if a == pos {
                    assert(r@[a] == el);
                }
                if b == pos {
                    assert(r@[b] == el);
                }
                if b > pos && pos < r_pre.len() {
                    assert(ring_max_x((r_pre[pos as int])@) <= key);
                }
            }
        }
        i = i + 1;
    }
    proof {
        assert(inv.take(inv.len() as int) =~= inv);
    }
    r
}

/// The rightmost vertex of a ring and its index, scanning the first
/// `j` points with a strict comparison, starting from the zero point.
pub open spec fn rm_scan(ring: Seq<P3>, j: int) -> (P3, int)
    decreases j,
{
    if j <= 0 {
        ((0u64, 0u64, 0u64), 0int)
    } else {
        let pre = rm_scan(ring, j - 1);
        if ring[j - 1].0 > pre.0.0 {
            (ring[j - 1], j - 1)
        } else {
            pre
        }
    }
}

/// Mathematical floor division: the Euclidean quotient taken with a
/// positive divisor, so the result rounds toward minus infinity.
pub open spec fn fdiv(a: int, b: int) -> int {
    if b > 0 {
        a / b
    } else {
        (-a) / (-b)
    }
}

/// Floor division of two machine integers.
fn floor_div(a: i128, b: i128) -> (r: i128)
    requires
        b != 0,
        -(0x1_0000_0000_0000_0000_0000_0000i128) <= a <= 0x1_0000_0000_0000_0000_0000_0000i128,
        -(0x1_0000_0000_0000_0000_0000_0000i128) <= b <= 0x1_0000_0000_0000_0000_0000_0000i128,
    ensures
        r == fdiv(a as int, b as int),
{
    if a == 0 {
        return 0;
    }
    let an: u128 = if a >= 0 {
        a as u128
    } else {
        (-a) as u128
    };
    let bn: u128 = if b >= 0 {
        b as u128
    } else {
        (-b) as u128
    };
    let aneg = a < 0;
    let bneg = b < 0;
    if aneg == bneg {
        let q = an / bn;
        proof {
            if !aneg {
                assert(q == fdiv(a as int, b as int)) by (nonlinear_arith)
                    requires
                        a >= 0,
                        b > 0,
                        an == a,
                        bn == b,
                        q == an / bn,
                ;
            } else {
                assert(q == fdiv(a as int, b as int)) by (nonlinear_arith)
                    requires
                        a < 0,
                        b < 0,
                        an == -(a as int),
                        bn == -(b as int),
                        q == an / bn,
                ;
            }
        }
        q as i128
    } else {
        let q = (an + bn - 1) / bn;
        proof {
            assert(an >= 1 && bn >= 1 && an + bn - 1 <= 0x2_0000_0000_0000_0000_0000_0000u128);
            assert(q <= an + bn - 1) by (nonlinear_arith)
                requires
                    an >= 1,
                    bn >= 1,
                    q == ((an + bn - 1) as u128) / bn,
            ;
            assert(-(q as int) == fdiv(a as int, b as int)) by (nonlinear_arith)
                requires
                    an >= 1,
                    bn >= 1,
                    (a as int == -(an as int) && b as int == bn as int) || (a as int == an as int
                        && b as int == -(bn as int)),
                    q == ((an + bn - 1) as u128) / bn,
            ;
        }
        -(q as i128)
    }
}


/// The rightward ray from the hole's rightmost vertex `rm` meets the
/// outer edge `a -> b`: the edge is not horizontal, the crossing
/// parameter lies in `[0, 1]`, and the crossing sits right of `rm`.
pub open spec fn bridge_edge_ok(a: P3, b: P3, rm: P3) -> bool {
    let dy = b.1 - a.1;
    let n = rm.1 - a.1;
    let q = (a.0 - rm.0) * dy + n * (b.0 - a.0);
    if dy == 0 {
        false
    } else if dy > 0 {
        0 <= n && n <= dy && q >= 0
    } else {
        dy <= n && n <= 0 && q <= 0
    }
}

/// The x coordinate where the ray from `rm` meets the edge `a -> b`,
/// rounded down to the integer grid.
pub open spec fn bridge_x(a: P3, b: P3, rm: P3) -> int {
    a.0 + fdiv((rm.1 - a.1) * (b.0 - a.0), b.1 - a.1)
}

/// The z coordinate interpolated at the crossing, rounded down.
pub open spec fn bridge_z(a: P3, b: P3, rm: P3) -> int {
    a.2 + fdiv((rm.1 - a.1) * (b.2 - a.2), b.1 - a.1)
}

/// Scan the first `k` outer edges for the crossing closest to the
/// right of `rm`: the running `(distance, insertion index, crossing
/// point)`, starting from an unset sentinel distance.
pub open spec fn bridge_scan(outer: Seq<P3>, rm: P3, k: int) -> (int, int, P3)
    decreases k,
{
    if k <= 0 {
        (u64::MAX as int, 0int, (0u64, 0u64, 0u64))
    } else {
        let pre = bridge_scan(outer, rm, k - 1);
        let a = outer[k - 1];
        let b = outer[k % outer.len() as int];
        if bridge_edge_ok(a, b, rm) && bridge_x(a, b, rm) - rm.0 < pre.0 {
            (
                bridge_x(a, b, rm) - rm.0,
                k % outer.len() as int,
                ((bridge_x(a, b, rm)) as u64, rm.1, (bridge_z(a, b, rm)) as u64),
            )
        } else {
            pre
        }
    }
}

/// A quotient scaled by a parameter in `[0, 1]` stays between zero and
/// the parameter's scale.
proof fn lemma_div_scale_bound(n: int, d: int, w: int)
    requires
        d >= 1,
        0 <= n <= d,
    ensures
        w >= 0 ==> 0 <= (n * w) / d <= w,
        w < 0 ==> w <= (n * w) / d <= 0,
{
    assert((w >= 0 ==> 0 <= (n * w) / d <= w) && (w < 0 ==> w <= (n * w) / d <= 0))
        by (nonlinear_arith)
        requires
            d >= 1,
            0 <= n <= d,
    ;
}

/// The crossing coordinates stay within the edge's coordinate range.
proof fn lemma_bridge_bounds(a: P3, b: P3, rm: P3)
    requires
        pt_bounded(a),
        pt_bounded(b),
        pt_bounded(rm),
        bridge_edge_ok(a, b, rm),
    ensures
        0 <= bridge_x(a, b, rm) <= u32::MAX,
        0 <= bridge_z(a, b, rm) <= u32::MAX,
{
    let dy = b.1 - a.1;
    let n = rm.1 - a.1;
    if dy > 0 {
        lemma_div_scale_bound(n, dy, b.0 - a.0);
        lemma_div_scale_bound(n, dy, b.2 - a.2);
        assert(fdiv(n * (b.0 - a.0), dy) == (n * (b.0 - a.0)) / dy);
    } else {
        lemma_div_scale_bound(-n, -dy, b.0 - a.0);
        lemma_div_scale_bound(-n, -dy, b.2 - a.2);
        assert((-n) * (b.0 - a.0) == -(n * (b.0 - a.0))) by (nonlinear_arith);
        assert((-n) * (b.2 - a.2) == -(n * (b.2 - a.2))) by (nonlinear_arith);
    }
}

/// An outer ring with one hole bridged in: the ring up to the
/// insertion point, the crossing point, the hole walked once around
/// from its rightmost vertex, that vertex again, the crossing point
/// again, then the rest of the ring.
pub open spec fn bridge_one(outer: Seq<P3>, inner: Seq<P3>) -> Seq<P3> {
    let rm = rm_scan(inner, inner.len() as int);
    let sc = bridge_scan(outer, rm.0, outer.len() as int);
    outer.take(sc.1) + seq![sc.2] + inner.skip(rm.1) + inner.take(rm.1) + seq![inner[rm.1]]
        + seq![sc.2] + outer.skip(sc.1)
}

/// The insertion index a scan returns always lies within the ring.
proof fn lemma_bridge_scan_idx(outer: Seq<P3>, rm: P3, k: int)
    requires
        0 <= k <= outer.len(),
    ensures
        0 <= bridge_scan(outer, rm, k).1,
        outer.len() >= 1 ==> bridge_scan(outer, rm, k).1 < outer.len(),
        outer.len() == 0 ==> bridge_scan(outer, rm, k).1 == 0,
    decreases k,
{
    if k > 0 {
        lemma_bridge_scan_idx(outer, rm, k - 1);
        if outer.len() >= 1 {
            vstd::arithmetic::div_mod::lemma_mod_bound(k, outer.len() as int);
        }
    }
}

/// Bridging a hole into a ring grows it by the hole's size plus three.
pub proof fn lemma_bridge_one_len(outer: Seq<P3>, inner: Seq<P3>)
    requires
        inner.len() >= 1,
    ensures
        bridge_one(outer, inner).len() == outer.len() + inner.len() + 3,
{
    let rm = rm_scan(inner, inner.len() as int);
    lemma_rm_scan_idx(inner, inner.len() as int);
    lemma_bridge_scan_idx(outer, rm.0, outer.len() as int);
}

/// The rightmost-vertex scan yields a bounded point when the ring is
/// bounded (the zero starting point is bounded too).
proof fn lemma_rm_scan_pt(ring: Seq<P3>, j: int)
    requires
        0 <= j <= ring.len(),
        ring_bounded(ring),
    ensures
        pt_bounded(rm_scan(ring, j).0),
    decreases j,
{
    if j > 0 {
        lemma_rm_scan_pt(ring, j - 1);
    }
}

/// The rightmost-vertex scan returns an index within the ring.
pub proof fn lemma_rm_scan_idx(ring: Seq<P3>, j: int)
    requires
        j >= 0,
    ensures
        0 <= rm_scan(ring, j).1,
        j >= 1 ==> rm_scan(ring, j).1 < j,
        j == 0 ==> rm_scan(ring, j).1 == 0,
    decreases j,
{
    if j > 0 {
        lemma_rm_scan_idx(ring, j - 1);
    }
}

/// Bridge one hole into the outer ring in place.
fn bridge_hole(outer: &mut Vec<P3>, inner: &Vec<P3>)
    requires
        inner@.len() >= 1,
        ring_bounded(old(outer)@),
        ring_bounded(inner@),
    ensures
        final(outer)@ == bridge_one(old(outer)@, inner@),
{
    // find the hole's rightmost vertex
    let mut rm: P3 = (0, 0, 0);
    let mut rm_idx: usize = 0;
    let mut j: usize = 0;
    while j < inner.len()
        invariant
            0 <= j <= inner@.len(),
            (rm, rm_idx as int) == rm_scan(inner@, j as int),
            rm_idx as int <= j,
            j >= 1 ==> (rm_idx as int) < j,
        decreases inner@.len() - j,
    {
        if inner[j].0 > rm.0 {
            rm = inner[j];
            rm_idx = j;
        }
        j = j + 1;
    }
    proof {
        lemma_rm_scan_idx(inner@, inner@.len() as int);
        lemma_rm_scan_pt(inner@, inner@.len() as int);
    }
    // find the closest crossing of the rightward ray with an outer edge
    let mut best_dis: u64 = u64::MAX;
    let mut intersect: P3 = (0, 0, 0);
    let mut intersect_index: usize = 0;
    let n_out = outer.len();
    let mut i: usize = 0;
    while i < n_out
        invariant
            0 <= i <= n_out == outer@.len(),
            ring_bounded(outer@),
            ring_bounded(inner@),
            pt_bounded(rm),
            rm == rm_scan(inner@, inner@.len() as int).0,
            (best_dis as int, intersect_index as int, intersect) == bridge_scan(
                outer@,
                rm,
                i as int,
            ),
            intersect_index as int <= i,
            n_out >= 1 && i >= 1 ==> (intersect_index as int) < n_out,
        decreases n_out - i,
    {
        let a = outer[i];
        let b = outer[if i + 1 == n_out {
            0
        } else {
            i + 1
        }];
        proof {
            if i + 1 == n_out {
                vstd::arithmetic::div_mod::lemma_mod_self_0(n_out as int);
            } else {
                vstd::arithmetic::div_mod::lemma_small_mod((i + 1) as nat, n_out as nat);
            }
        }
        let y1 = a.1 as i128;
        let y2 = b.1 as i128;
        let dy = y2 - y1;
        if dy != 0 {
            let n = rm.1 as i128 - y1;
            let t_ok = if dy > 0 {
                0 <= n && n <= dy
            } else {
                dy <= n && n <= 0
            };
            if t_ok {
                let x1 = a.0 as i128;
                let x2 = b.0 as i128;
                proof {
                    lemma_prod_bound(a.0 as int - rm.0 as int, dy as int, 0x1_0000_0000, 0x1_0000_0000);
                    lemma_prod_bound(n as int, x2 - x1 as int, 0x1_0000_0000, 0x1_0000_0000);
                }
                let q = (x1 - rm.0 as i128) * dy + n * (x2 - x1);
                let dis_ok = if dy > 0 {
                    q >= 0
                } else {
                    q <= 0
                };
                if dis_ok {
                    proof {
                        lemma_bridge_bounds(a, b, rm);
                        lemma_prod_bound(n as int, b.0 as int - a.0 as int, 0x1_0000_0000, 0x1_0000_0000);
                        lemma_prod_bound(n as int, b.2 as int - a.2 as int, 0x1_0000_0000, 0x1_0000_0000);
                    }
                    let fx = x1 + floor_div(n * (x2 - x1), dy);
                    let z1 = a.2 as i128;
                    let z2 = b.2 as i128;
                    let fz = z1 + floor_div(n * (z2 - z1), dy);
                    let cur_dis = (fx as u64) - rm.0.min(fx as u64);
                    // the crossing sits right of `rm`; the truncated
                    // distance is floor(x) - rm.x
                    let cur = if fx as u64 >= rm.0 {
                        (fx as u64) - rm.0
                    } else {
                        0
                    };
                    proof {
                        let aa = a;
                        let bb = b;
                        assert(bridge_x(aa, bb, rm) == fx);
                        assert(bridge_z(aa, bb, rm) == fz);
                        assert(bridge_edge_ok(aa, bb, rm));
                        // q has the sign of dy exactly when the real
                        // crossing is right of rm, so floor(x) >= rm.x
                        assert(fx >= rm.0) by (nonlinear_arith)
                            requires
                                fx == aa.0 + fdiv((rm.1 - aa.1) * (bb.0 - aa.0), bb.1 - aa.1),
                                bridge_edge_ok(aa, bb, rm),
                                pt_bounded(aa),
                                pt_bounded(bb),
                                rm.0 <= u32::MAX,
                                fx <= u32::MAX,
                        ;
                    }
                    if cur < best_dis {
                        best_dis = cur;
                        intersect_index = if i + 1 == n_out {
                            0
                        } else {
                            i + 1
                        };
                        intersect = (fx as u64, rm.1, fz as u64);
                    }
                }
            }
        }
        i = i + 1;
    }
    // splice the hole into the ring at the insertion point
    let ghost outer0 = outer@;
    let mut nv: Vec<P3> = Vec::new();
    let mut k: usize = 0;
    let ghost block = seq![intersect] + inner@.skip(rm_idx as int) + inner@.take(rm_idx as int)
        + seq![inner@[rm_idx as int]] + seq![intersect];
    while k < n_out
        invariant
            0 <= k <= n_out == outer@.len(),
            outer@ == outer0,
            inner@.len() >= 1,
            rm_idx < inner@.len(),
            intersect_index as int <= n_out,
            n_out >= 1 ==> (intersect_index as int) < n_out,
            block == seq![intersect] + inner@.skip(rm_idx as int) + inner@.take(rm_idx as int)
                + seq![inner@[rm_idx as int]] + seq![intersect],
            k <= intersect_index ==> nv@ == outer0.take(k as int),
            k > intersect_index ==> nv@ == outer0.take(intersect_index as int) + block
                + outer0.subrange(intersect_index as int, k as int),
        decreases n_out - k,
    {
        if k == intersect_index {
            nv.push(intersect);
            let mut w: usize = rm_idx;
            let mut step: usize = 0;
            while step < inner.len()
                invariant
                    0 <= step <= inner@.len(),
                    rm_idx < inner@.len(),
                    w == (if rm_idx + step < inner@.len() {
                        rm_idx + step
                    } else {
                        rm_idx + step - inner@.len()
                    }),
                    nv@ == outer0.take(intersect_index as int) + seq![intersect] + (inner@.skip(
                        rm_idx as int,
                    ) + inner@.take(rm_idx as int)).take(step as int),
                decreases inner@.len() - step,
            {
                proof {
                    let rot = inner@.skip(rm_idx as int) + inner@.take(rm_idx as int);
                    assert(rot.take(step + 1) =~= rot.take(step as int).push(rot[step as int]));
                    if rm_idx + step < inner@.len() {
                        assert(rot[step as int] == inner@[rm_idx + step]);
                    } else {
                        assert(rot[step as int] == inner@[rm_idx + step - inner@.len()]);
                    }
                }
                nv.push(inner[w]);
                w = if w + 1 == inner.len() {
                    0
                } else {
                    w + 1
                };
                step = step + 1;
            }
            proof {
                let rot = inner@.skip(rm_idx as int) + inner@.take(rm_idx as int);
                assert(rot.take(inner@.len() as int) =~= rot);
            }
            nv.push(inner[w]);
            proof {
                assert(w == rm_idx);
            }
            nv.push(intersect);
            nv.push(outer[k]);
            proof {
                assert(nv@ =~= outer0.take(intersect_index as int) + block + outer0.subrange(
                    intersect_index as int,
                    k + 1,
                ));
            }
        } else {
            nv.push(outer[k]);
            proof {
                if k < intersect_index {
                    assert(nv@ =~= outer0.take(k + 1));
                } else {
                    assert(nv@ =~= outer0.take(intersect_index as int) + block + outer0.subrange(
                        intersect_index as int,
                        k + 1,
                    ));
                }
            }
        }
        k = k + 1;
    }
    if n_out == 0 {
        nv.push(intersect);
        let mut w: usize = rm_idx;
        let mut step: usize = 0;
        while step < inner.len()
            invariant
                0 <= step <= inner@.len(),
                rm_idx < inner@.len(),
                w == (if rm_idx + step < inner@.len() {
                    rm_idx + step
                } else {
                    rm_idx + step - inner@.len()
                }),
                nv@ == seq![intersect] + (inner@.skip(rm_idx as int) + inner@.take(
                    rm_idx as int,
                )).take(step as int),
            decreases inner@.len() - step,
        {
            proof {
                let rot = inner@.skip(rm_idx as int) + inner@.take(rm_idx as int);
                assert(rot.take(step + 1) =~= rot.take(step as int).push(rot[step as int]));
                if rm_idx + step < inner@.len() {
                    assert(rot[step as int] == inner@[rm_idx + step]);
                } else {
                    assert(rot[step as int] == inner@[rm_idx + step - inner@.len()]);
                }
            }
            nv.push(inner[w]);
            w = if w + 1 == inner.len() {
                0
            } else {
                w + 1
            };
            step = step + 1;
        }
        proof {
            let rot = inner@.skip(rm_idx as int) + inner@.take(rm_idx as int);
            assert(rot.take(inner@.len() as int) =~= rot);
        }
        nv.push(inner[w]);
        proof {
            assert(w == rm_idx);
        }
        nv.push(intersect);
    }
    proof {
        assert(nv@ =~= bridge_one(outer0, inner@));
    }
    let mut nv = nv;
    core::mem::swap(outer, &mut nv);
}


/// The outer ring after bridging in every hole of `inns`, in order.
pub open spec fn bridge_fold(outer: Seq<P3>, inns: Seq<Vec<P3>>) -> Seq<P3>
    decreases inns.len(),
{
    if inns.len() == 0 {
        outer
    } else {
        bridge_fold(bridge_one(outer, inns.first()@), inns.drop_first())
    }
}

/// Folding one more hole at the end bridges it into the folded ring.
proof fn lemma_bridge_fold_push(outer: Seq<P3>, inns: Seq<Vec<P3>>, v: Vec<P3>)
    ensures
        bridge_fold(outer, inns.push(v)) == bridge_one(bridge_fold(outer, inns), v@),
    decreases inns.len(),
{
    if inns.len() == 0 {
        assert(inns.push(v).first() == v);
        assert(inns.push(v).drop_first() =~= Seq::<Vec<P3>>::empty());
        assert(bridge_fold(outer, inns) == outer);
        assert(bridge_fold(outer, inns.push(v)) == bridge_fold(
            bridge_one(outer, v@),
            inns.push(v).drop_first(),
        ));
        assert(bridge_fold(bridge_one(outer, v@), inns.push(v).drop_first()) == bridge_one(
            outer,
            v@,
        ));
    } else {
        assert(inns.push(v).first() == inns.first());
        assert(inns.push(v).drop_first() =~= inns.drop_first().push(v));
        assert(bridge_fold(outer, inns.push(v)) == bridge_fold(
            bridge_one(outer, inns.first()@),
            inns.drop_first().push(v),
        ));
        lemma_bridge_fold_push(bridge_one(outer, inns.first()@), inns.drop_first(), v);
    }
}

/// Bridging all holes grows the ring by the total room the holes need.
pub proof fn lemma_bridge_fold_len(outer: Seq<P3>, inns: Seq<Vec<P3>>)
    requires
        forall|k: int| 0 <= k < inns.len() ==> (#[trigger] inns[k])@.len() >= 1,
    ensures
        bridge_fold(outer, inns).len() == outer.len() + inners_total(
            inns.map_values(|v: Vec<P3>| v@),
        ),
    decreases inns.len(),
{
    if inns.len() == 0 {
    } else {
        let mid = bridge_one(outer, inns.first()@);
        lemma_bridge_one_len(outer, inns.first()@);
        assert forall|k: int| 0 <= k < inns.drop_first().len() implies (#[trigger] inns.drop_first(
        )[k])@.len() >= 1 by {
            assert(inns.drop_first()[k] == inns[k + 1]);
        }
        lemma_bridge_fold_len(mid, inns.drop_first());
        lemma_inners_total_drop_first(inns.map_values(|v: Vec<P3>| v@));
        assert(inns.drop_first().map_values(|v: Vec<P3>| v@) =~= inns.map_values(
            |v: Vec<P3>| v@,
        ).drop_first());
    }
}

/// The total of a ring collection splits off its first ring.
proof fn lemma_inners_total_drop_first(inns: Seq<Seq<P3>>)
    requires
        inns.len() >= 1,
    ensures
        inners_total(inns) == inns.first().len() + 3 + inners_total(inns.drop_first()),
    decreases inns.len(),
{
    if inns.len() == 1 {
        assert(inns.drop_first() =~= Seq::<Seq<P3>>::empty());
        assert(inns.drop_last() =~= Seq::<Seq<P3>>::empty());
    } else {
        lemma_inners_total_drop_first(inns.drop_last());
        assert(inns.drop_last().first() == inns.first());
        assert(inns.drop_first().drop_last() =~= inns.drop_last().drop_first());
        assert(inns.drop_first().last() == inns.last());
    }
}

/// Merge every hole into the outer ring: sort the holes descending by
/// rightmost x, then bridge them in one at a time.  The result (also
/// left in `outer`) holds the ring plus every hole plus three bridge
/// vertices per hole.
pub fn merge_inner(outer: &mut Vec<P3>, inners: Vec<Vec<P3>>) -> (r: Vec<P3>)
    requires
        ring_bounded(old(outer)@),
        forall|k: int|
            0 <= k < inners@.len() ==> (#[trigger] inners@[k])@.len() >= 1 && ring_bounded(
                (inners@[k])@,
            ),
    ensures
        final(outer)@ == r@,
        ring_bounded(r@),
        r@.len() == old(outer)@.len() + inners_total(inners@.map_values(|v: Vec<P3>| v@)),
        exists|sorted: Seq<Vec<P3>>|
            {
                &&& #[trigger] sorted.to_multiset() == inners@.to_multiset()
                &&& (forall|i: int, j: int|
                    0 <= i <= j < sorted.len() ==> ring_max_x((#[trigger] sorted[i])@)
                        >= ring_max_x((#[trigger] sorted[j])@))
                &&& r@ == bridge_fold(old(outer)@, sorted)
            },
{
    broadcast use vstd::seq_lib::to_multiset_contains;

    let ghost inns_view = inners@;
    let sorted = sort_inners_desc(inners);
    let ghost sorted_view = sorted@;
    let mut sorted = sorted;
    let mut i: usize = 0;
    proof {
        assert(sorted_view.take(0) =~= Seq::<Vec<P3>>::empty());
        assert forall|k: int| 0 <= k < sorted_view.len() implies (#[trigger] sorted_view[k])@.len()
            >= 1 && ring_bounded((sorted_view[k])@) by {
            assert(sorted_view.contains(sorted_view[k]));
            assert(sorted_view.to_multiset().count(sorted_view[k]) > 0);
            assert(inns_view.to_multiset().count(sorted_view[k]) > 0);
            assert(inns_view.contains(sorted_view[k]));
            let j = choose|j: int| 0 <= j < inns_view.len() && inns_view[j] == sorted_view[k];
        }
    }
    while i < sorted.len()
        invariant
            0 <= i <= sorted_view.len(),
            sorted@.len() == sorted_view.len(),
            forall|j: int| i <= j < sorted_view.len() ==> #[trigger] sorted@[j] == sorted_view[j],
            forall|k: int|
                0 <= k < sorted_view.len() ==> (#[trigger] sorted_view[k])@.len() >= 1
                    && ring_bounded((sorted_view[k])@),
            ring_bounded(outer@),
            outer@ == bridge_fold(old(outer)@, sorted_view.take(i as int)),
        decreases sorted_view.len() - i,
    {
        let mut inner: Vec<P3> = Vec::new();
        core::mem::swap(&mut inner, &mut sorted[i]);
        proof {
            assert(inner@ == (sorted_view[i as int])@);
        }
        let ghost outer_pre = outer@;
        bridge_hole(outer, &inner);
        proof {
            assert(sorted_view.take(i + 1) =~= sorted_view.take(i as int).push(
                sorted_view[i as int],
            ));
            lemma_bridge_fold_push(old(outer)@, sorted_view.take(i as int), sorted_view[i as int]);
            lemma_bridge_ring_bounded(outer_pre, inner@);
        }
        i = i + 1;
    }
    proof {
        assert(sorted_view.take(sorted_view.len() as int) =~= sorted_view);
        assert forall|k: int| 0 <= k < sorted_view.len() implies (#[trigger] sorted_view[k])@.len()
            >= 1 by {}
        lemma_bridge_fold_len(old(outer)@, sorted_view);
        lemma_inners_total_multiset(sorted_view, inns_view);
    }
    let r = copy_ring(outer);
    r
}

/// Bridging keeps every coordinate within the 32-bit domain.
proof fn lemma_bridge_ring_bounded(outer: Seq<P3>, inner: Seq<P3>)
    requires
        ring_bounded(outer),
        ring_bounded(inner),
        inner.len() >= 1,
    ensures
        ring_bounded(bridge_one(outer, inner)),
{
    let rm = rm_scan(inner, inner.len() as int);
    lemma_rm_scan_idx(inner, inner.len() as int);
    lemma_rm_scan_pt(inner, inner.len() as int);
    lemma_bridge_scan_idx(outer, rm.0, outer.len() as int);
    lemma_bridge_scan_pt(outer, rm.0, outer.len() as int);
    let out = bridge_one(outer, inner);
    assert forall|k: int| 0 <= k < out.len() implies pt_bounded(#[trigger] out[k]) by {
        let sc = bridge_scan(outer, rm.0, outer.len() as int);
        if out[k] == sc.2 || out[k] == inner[rm.1] {
        } else {
        }
    }
}

/// The crossing point a scan returns is bounded (the sentinel zero
/// point is bounded too).
proof fn lemma_bridge_scan_pt(outer: Seq<P3>, rm: P3, k: int)
    requires
        0 <= k <= outer.len(),
        ring_bounded(outer),
        pt_bounded(rm),
    ensures
        pt_bounded(bridge_scan(outer, rm, k).2),
    decreases k,
{
    if k > 0 {
        lemma_bridge_scan_pt(outer, rm, k - 1);
        let a = outer[k - 1];
        let b = outer[k % outer.len() as int];
        vstd::arithmetic::div_mod::lemma_mod_bound(k, outer.len() as int);
        if bridge_edge_ok(a, b, rm) {
            lemma_bridge_bounds(a, b, rm);
        }
    }
}

/// Two ring collections with the same multiset need the same total
/// room.
proof fn lemma_inners_total_multiset(a: Seq<Vec<P3>>, b: Seq<Vec<P3>>)
    requires
        a.to_multiset() == b.to_multiset(),
    ensures
        inners_total(a.map_values(|v: Vec<P3>| v@)) == inners_total(
            b.map_values(|v: Vec<P3>| v@),
        ),
    decreases a.len(),
{
    broadcast use vstd::seq_lib::to_multiset_build;
    broadcast use vstd::seq_lib::to_multiset_remove;
    broadcast use vstd::seq_lib::to_multiset_len;
    broadcast use vstd::seq_lib::to_multiset_contains;

    if a.len() == 0 {
        assert(a.to_multiset().len() == a.len());
        assert(b.to_multiset().len() == b.len());
        assert(b.len() == 0);
        assert(a.map_values(|v: Vec<P3>| v@) =~= Seq::<Seq<P3>>::empty());
        assert(b.map_values(|v: Vec<P3>| v@) =~= Seq::<Seq<P3>>::empty());
    } else {
        let x = a.last();
        assert(a.to_multiset().count(x) > 0) by {
            assert(a.drop_last().push(x) =~= a);
        }
        assert(b.to_multiset().count(x) > 0);
        assert(b.contains(x));
        let j = choose|j: int| 0 <= j < b.len() && b[j] == x;
        let b2 = b.remove(j);
        assert(b2.to_multiset() == b.to_multiset().remove(x));
        assert(a.drop_last().to_multiset() == a.to_multiset().remove(x)) by {
            assert(a.drop_last().push(x) =~= a);
        }
        lemma_inners_total_multiset(a.drop_last(), b2);
        lemma_inners_total_remove(b.map_values(|v: Vec<P3>| v@), j);
        assert(b2.map_values(|v: Vec<P3>| v@) =~= b.map_values(|v: Vec<P3>| v@).remove(j));
        assert(a.map_values(|v: Vec<P3>| v@).drop_last() =~= a.drop_last().map_values(
            |v: Vec<P3>| v@,
        ));
        assert(a.map_values(|v: Vec<P3>| v@).last() == x@);
        assert(b.map_values(|v: Vec<P3>| v@)[j] == x@);
    }
}

/// Removing a ring removes exactly its contribution from the total.
proof fn lemma_inners_total_remove(inns: Seq<Seq<P3>>, i: int)
    requires
        0 <= i < inns.len(),
    ensures
        inners_total(inns) == inners_total(inns.remove(i)) + inns[i].len() + 3,
    decreases inns.len(),
{
    if i == inns.len() - 1 {
        assert(inns.remove(i) =~= inns.drop_last());
    } else {
        lemma_inners_total_remove(inns.drop_last(), i);
        assert(inns.remove(i).drop_last() =~= inns.drop_last().remove(i));
        assert(inns.remove(i).last() == inns.last());
    }
}

/// An exact copy of a ring.
fn copy_ring(v: &Vec<P3>) -> (r: Vec<P3>)
    ensures
        r@ == v@,
{
    let mut r: Vec<P3> = Vec::new();
    let mut i: usize = 0;
    while i < v.len()
        invariant
            0 <= i <= v@.len(),
            r@ == v@.take(i as int),
        decreases v@.len() - i,
    {
        r.push(v[i]);
        proof {
            assert(v@.take(i + 1) =~= v@.take(i as int).push(v@[i as int]));
        }
        i = i + 1;
    }
    proof {
        assert(v@.take(v@.len() as int) =~= v@);
    }
    r
}


/// Ring equality, point for point.
fn rings_eq(a: &Vec<P3>, b: &Vec<P3>) -> (r: bool)
    ensures
        r == (a@ == b@),
{
    if a.len() != b.len() {
        proof {
            assert(a@ != b@);
        }
        return false;
    }
    let mut i: usize = 0;
    while i < a.len()
        invariant
            0 <= i <= a@.len(),
            a@.len() == b@.len(),
            forall|j: int| 0 <= j < i ==> #[trigger] a@[j] == b@[j],
        decreases a@.len() - i,
    {
        let x = a[i];
        let y = b[i];
        if !(x.0 == y.0 && x.1 == y.1 && x.2 == y.2) {
            proof {
                assert(a@[i as int] != b@[i as int]);
            }
            return false;
        }
        i = i + 1;
    }
    proof {
        assert(a@ =~= b@);
    }
    true
}

/// How many of the first `upto` outer rings both differ from ring `k`
/// and contain its first vertex.
pub open spec fn depth_upto(outs: Seq<Seq<P3>>, k: int, upto: int) -> int
    decreases upto,
{
    if upto <= 0 {
        0
    } else {
        depth_upto(outs, k, upto - 1) + (if outs[upto - 1] != outs[k] && spec_inside_polygon(
            outs[upto - 1],
            outs[k][0],
        ) {
            1int
        } else {
            0int
        })
    }
}

/// How many other outer rings contain ring `k`'s first vertex: the
/// ring's nesting depth.
pub open spec fn depth_of(outs: Seq<Seq<P3>>, k: int) -> int {
    depth_upto(outs, k, outs.len() as int)
}

/// The first outer ring of maximal depth among the first `upto` rings
/// that contain the point, as `(depth, index)`; depth `-1` when none
/// contains it.
pub open spec fn best_outer_upto(outs: Seq<Seq<P3>>, pt: P3, upto: int) -> (int, int)
    decreases upto,
{
    if upto <= 0 {
        (-1int, 0int)
    } else {
        let pre = best_outer_upto(outs, pt, upto - 1);
        if spec_inside_polygon(outs[upto - 1], pt) && depth_of(outs, upto - 1) > pre.0 {
            (depth_of(outs, upto - 1), upto - 1)
        } else {
            pre
        }
    }
}

/// The inner rings among the first `j` that belong to outer ring `k`:
/// those whose first vertex's best containing outer is `k`.
pub open spec fn assigned_upto(inns: Seq<Vec<P3>>, outs: Seq<Seq<P3>>, k: int, j: int) -> Seq<
    Vec<P3>,
>
    decreases j,
{
    if j <= 0 {
        Seq::empty()
    } else {
        let pre = assigned_upto(inns, outs, k, j - 1);
        let b = best_outer_upto(outs, inns[j - 1]@[0], outs.len() as int);
        if b.0 >= 0 && b.1 == k {
            pre.push(inns[j - 1])
        } else {
            pre
        }
    }
}

/// How many of the first `j` inner rings no outer ring contains.
pub open spec fn skipped_upto(inns: Seq<Vec<P3>>, outs: Seq<Seq<P3>>, j: int) -> int
    decreases j,
{
    if j <= 0 {
        0
    } else {
        skipped_upto(inns, outs, j - 1) + (if best_outer_upto(
            outs,
            inns[j - 1]@[0],
            outs.len() as int,
        ).0 < 0 {
            1int
        } else {
            0int
        })
    }
}

/// The skipped count never drops below zero.
proof fn lemma_skipped_nonneg(inns: Seq<Vec<P3>>, outs: Seq<Seq<P3>>, j: int)
    ensures
        skipped_upto(inns, outs, j) >= 0,
    decreases j,
{
    if j > 0 {
        lemma_skipped_nonneg(inns, outs, j - 1);
    }
}

/// The logger after counting `times` `InnerNotInside` issues and
/// nothing else.
pub open spec fn logs_inner_not_inside(pre: Logger, post: Logger, times: int) -> bool {
    &&& post.two_plus_z_in_heightline == pre.two_plus_z_in_heightline
    &&& post.unsupported_shape == pre.unsupported_shape
    &&& post.empty_shape == pre.empty_shape
    &&& post.multi_chunk_shape == pre.multi_chunk_shape
    &&& post.non_origin_boundingbox == pre.non_origin_boundingbox
    &&& post.empty_style_id == pre.empty_style_id
    &&& post.missing_style_id == pre.missing_style_id
    &&& post.poly_not_enough_vertices == pre.poly_not_enough_vertices
    &&& post.out_of_indices_bound == pre.out_of_indices_bound
    &&& post.no_ears_left == pre.no_ears_left
    &&& post.inner_not_inside == bumped_times(pre.inner_not_inside, times)
    &&& post.messages@ == pre.messages@
    &&& post.debug_print == pre.debug_print
}

/// Group each inner ring under the outer ring that contains its first
/// vertex and is itself nested the deepest (the innermost enclosing
/// outer).  An inner ring no outer contains is dropped with a logged
/// `InnerNotInside` issue.
pub fn group_polygons(polygon: crate::data::PolygonZ, logger: &mut Logger) -> (r: Vec<
    (Vec<P3>, Vec<Vec<P3>>),
>)
    requires
        forall|k: int|
            0 <= k < polygon.outers@.len() ==> (#[trigger] polygon.outers@[k])@.len() >= 1
                && ring_bounded((polygon.outers@[k])@),
        forall|k: int|
            0 <= k < polygon.inners@.len() ==> (#[trigger] polygon.inners@[k])@.len() >= 1
                && ring_bounded((polygon.inners@[k])@),
    ensures
        r@.len() == polygon.outers@.len(),
        forall|k: int| 0 <= k < r@.len() ==> (#[trigger] r@[k]).0 == polygon.outers@[k],
        forall|k: int|
            0 <= k < r@.len() ==> (#[trigger] r@[k]).1@ == assigned_upto(
                polygon.inners@,
                polygon.outers@.map_values(|v: Vec<P3>| v@),
                k,
                polygon.inners@.len() as int,
            ),
        logs_inner_not_inside(
            *old(logger),
            *final(logger),
            skipped_upto(
                polygon.inners@,
                polygon.outers@.map_values(|v: Vec<P3>| v@),
                polygon.inners@.len() as int,
            ),
        ),
{
    let ghost outs = polygon.outers@.map_values(|v: Vec<P3>| v@);
    let ghost inns = polygon.inners@;
    let outers = polygon.outers;
    let inners = polygon.inners;
    let n_out = outers.len();
    // nesting depth of each outer ring
    let mut depths: Vec<usize> = Vec::new();
    let mut i: usize = 0;
    while i < n_out
        invariant
            0 <= i <= n_out == outs.len(),
            outers@ == polygon.outers@,
            outers@.map_values(|v: Vec<P3>| v@) == outs,
            forall|k: int|
                0 <= k < outs.len() ==> outs[k].len() >= 1 && ring_bounded(#[trigger] outs[k]),
            depths@.len() == i,
            forall|k: int| 0 <= k < i ==> #[trigger] depths@[k] == depth_of(outs, k),
        decreases n_out - i,
    {
        let mut cnt: usize = 0;
        let mut j: usize = 0;
        while j < n_out
            invariant
                0 <= j <= n_out == outs.len(),
                i < n_out,
                outers@ == polygon.outers@,
                outers@.map_values(|v: Vec<P3>| v@) == outs,
                forall|k: int|
                    0 <= k < outs.len() ==> outs[k].len() >= 1 && ring_bounded(#[trigger] outs[k]),
                cnt == depth_upto(outs, i as int, j as int),
                cnt <= j,
            decreases n_out - j,
        {
            proof {
                assert(outs[j as int] == outers@[j as int]@);
                assert(outs[i as int] == outers@[i as int]@);
            }
            let differs = !rings_eq(&outers[j], &outers[i]);
            if differs {
                if is_inside_polygon(&outers[j], outers[i][0]) {
                    cnt = cnt + 1;
                }
            }
            j = j + 1;
        }
        depths.push(cnt);
        i = i + 1;
    }
    // assign each inner to its best outer
    let mut groups: Vec<Vec<Vec<P3>>> = Vec::new();
    while groups.len() < n_out
        invariant
            groups@.len() <= n_out,
            forall|k: int| 0 <= k < groups@.len() ==> (#[trigger] groups@[k])@.len() == 0,
        decreases n_out - groups.len(),
    {
        groups.push(Vec::new());
    }
    let mut inners = inners;
    let mut j: usize = 0;
    proof {
        assert forall|k: int| 0 <= k < n_out implies (#[trigger] groups@[k])@ =~= assigned_upto(
            inns,
            outs,
            k,
            0,
        ) by {}
    }
    while j < inners.len()
        invariant
            0 <= j <= inns.len(),
            inners@.len() == inns.len(),
            forall|j2: int| j <= j2 < inns.len() ==> #[trigger] inners@[j2] == inns[j2],
            forall|k: int|
                0 <= k < inns.len() ==> (#[trigger] inns[k])@.len() >= 1 && ring_bounded(
                    (inns[k])@,
                ),
            outers@ == polygon.outers@,
            outers@.map_values(|v: Vec<P3>| v@) == outs,
            forall|k: int|
                0 <= k < outs.len() ==> outs[k].len() >= 1 && ring_bounded(#[trigger] outs[k]),
            n_out == outs.len(),
            depths@.len() == n_out,
            forall|k: int| 0 <= k < n_out ==> #[trigger] depths@[k] == depth_of(outs, k),
            groups@.len() == n_out,
            forall|k: int|
                0 <= k < n_out ==> (#[trigger] groups@[k])@ == assigned_upto(
                    inns,
                    outs,
                    k,
                    j as int,
                ),
            logs_inner_not_inside(*old(logger), *logger, skipped_upto(inns, outs, j as int)),
        decreases inners.len() - j,
    {
        let mut inner: Vec<P3> = Vec::new();
        core::mem::swap(&mut inner, &mut inners[j]);
        let pt = inner[0];
        let mut found = false;
        let mut best_depth: usize = 0;
        let mut best_idx: usize = 0;
        let mut k: usize = 0;
        while k < n_out
            invariant
                0 <= k <= n_out == outs.len(),
                pt == inns[j as int]@[0],
                j < inns.len(),
                outers@ == polygon.outers@,
                outers@.map_values(|v: Vec<P3>| v@) == outs,
                forall|k2: int|
                    0 <= k2 < outs.len() ==> outs[k2].len() >= 1 && ring_bounded(
                        #[trigger] outs[k2],
                    ),
                pt_bounded(pt),
                depths@.len() == n_out,
                forall|k2: int| 0 <= k2 < n_out ==> #[trigger] depths@[k2] == depth_of(outs, k2),
                !found ==> best_outer_upto(outs, pt, k as int) == (-1int, 0int),
                found ==> best_idx < n_out && best_outer_upto(outs, pt, k as int) == (
                    best_depth as int,
                    best_idx as int,
                ),
            decreases n_out - k,
        {
            proof {
                assert(outs[k as int] == outers@[k as int]@);
            }
            if is_inside_polygon(&outers[k], pt) {
                let d = depths[k];
                if !found || d > best_depth {
                    found = true;
                    best_depth = d;
                    best_idx = k;
                }
            }
            k = k + 1;
        }
        let ghost groups_pre = groups@;
        if found {
            groups[best_idx].push(inner);
            proof {
                assert forall|k2: int| 0 <= k2 < n_out implies (#[trigger] groups@[k2])@
                    == assigned_upto(inns, outs, k2, j + 1) by {
                    if k2 == best_idx {
                        assert(groups@[k2]@ =~= assigned_upto(inns, outs, k2, j as int).push(
                            inns[j as int],
                        ));
                    } else {
                        assert(groups@[k2] == groups_pre[k2]);
                    }
                }
            }
        } else {
            logger.log(Issue::InnerNotInside);
        }
        proof {
            lemma_skipped_nonneg(inns, outs, j as int);
            let stepped = skipped_upto(inns, outs, j + 1);
            let base = skipped_upto(inns, outs, j as int);
            assert(stepped == base + (if best_outer_upto(
                outs,
                inns[j as int]@[0],
                outs.len() as int,
            ).0 < 0 {
                1int
            } else {
                0int
            }));
            if stepped == base + 1 {
                assert(bumped_times(old(logger).inner_not_inside, stepped) == crate::logger::bumped(
                    bumped_times(old(logger).inner_not_inside, base),
                ));
            }
        }
        j = j + 1;
    }
    // zip the outers with their groups
    let mut outers = outers;
    let mut groups = groups;
    let mut r: Vec<(Vec<P3>, Vec<Vec<P3>>)> = Vec::new();
    let mut k: usize = 0;
    while k < n_out
        invariant
            0 <= k <= n_out,
            outers@.len() == n_out,
            groups@.len() == n_out,
            forall|k2: int| k <= k2 < n_out ==> #[trigger] outers@[k2] == polygon.outers@[k2],
            forall|k2: int|
                k <= k2 < n_out ==> (#[trigger] groups@[k2])@ == assigned_upto(
                    inns,
                    outs,
                    k2,
                    inns.len() as int,
                ),
            r@.len() == k,
            forall|k2: int| 0 <= k2 < k ==> (#[trigger] r@[k2]).0 == polygon.outers@[k2],
            forall|k2: int|
                0 <= k2 < k ==> (#[trigger] r@[k2]).1@ == assigned_upto(
                    inns,
                    outs,
                    k2,
                    inns.len() as int,
                ),
        decreases n_out - k,
    {
        let mut outer: Vec<P3> = Vec::new();
        core::mem::swap(&mut outer, &mut outers[k]);
        let mut group: Vec<Vec<P3>> = Vec::new();
        core::mem::swap(&mut group, &mut groups[k]);
        r.push((outer, group));
        k = k + 1;
    }
    r
}


/// One vertex of the ring being clipped: its point, cached corner
/// flags, its index into the original vertex list, and cyclic
/// neighbour links into the arena.
#[derive(Clone, Copy)]
pub struct RingNode {
    pub pt: P3,
    pub reflex: bool,
    pub ear: bool,
    pub idx: u16,
    pub next: usize,
    pub prev: usize,
    pub active: bool,
}

/// Every node's links point into the arena and its point fits the
/// coordinate domain.
pub open spec fn arena_links_ok(arena: Seq<RingNode>) -> bool {
    forall|k: int|
        0 <= k < arena.len() ==> (#[trigger] arena[k]).next < arena.len() && arena[k].prev
            < arena.len() && pt_bounded(arena[k].pt)
}

/// The corner at node `i` is an ear: it is convex, and no other active
/// node sits inside the triangle of `i` and its two linked neighbours.
pub open spec fn spec_is_ear(arena: Seq<RingNode>, i: int) -> bool {
    let a = arena[arena[i].prev as int].pt;
    let b = arena[i].pt;
    let c = arena[arena[i].next as int].pt;
    &&& !spec_is_reflex(a, b, c)
    &&& forall|k: int|
        0 <= k < arena.len() && (#[trigger] arena[k]).active && k != i && k != arena[i].prev && k
            != arena[i].next ==> !spec_inside_triangle(arena[k].pt, a, b, c)
}

/// Whether node `i`'s corner is reflex, read through its links.
pub open spec fn spec_reflex_at(arena: Seq<RingNode>, i: int) -> bool {
    spec_is_reflex(arena[arena[i].prev as int].pt, arena[i].pt, arena[arena[i].next as int].pt)
}

/// The node the flag refresh produces for slot `i`: a convex corner
/// stays convex, a reflex corner may have become convex, and the ear
/// flag is recomputed for any corner that is now convex.
pub open spec fn spec_refreshed_node(arena: Seq<RingNode>, i: int) -> RingNode {
    let now_reflex = spec_reflex_at(arena, i);
    RingNode {
        reflex: arena[i].reflex && now_reflex,
        ear: if arena[i].reflex && now_reflex {
            false
        } else {
            spec_is_ear(arena, i)
        },
        ..arena[i]
    }
}

/// Corner and ear tests read only points, links and activity, never
/// the cached flags.
proof fn lemma_flags_dont_matter(a: Seq<RingNode>, b: Seq<RingNode>, i: int)
    requires
        a.len() == b.len(),
        forall|k: int|
            0 <= k < a.len() ==> (#[trigger] a[k]).pt == b[k].pt && a[k].next == b[k].next
                && a[k].prev == b[k].prev && a[k].active == b[k].active,
        0 <= i < a.len(),
        a[i].next < a.len(),
        a[i].prev < a.len(),
    ensures
        spec_reflex_at(a, i) == spec_reflex_at(b, i),
        spec_is_ear(a, i) == spec_is_ear(b, i),
{
    assert(a[a[i].prev as int].pt == b[b[i].prev as int].pt);
    assert(a[a[i].next as int].pt == b[b[i].next as int].pt);
    if spec_is_ear(a, i) {
        assert forall|k: int|
            0 <= k < b.len() && (#[trigger] b[k]).active && k != i && k != b[i].prev && k
                != b[i].next implies !spec_inside_triangle(
            b[k].pt,
            b[b[i].prev as int].pt,
            b[i].pt,
            b[b[i].next as int].pt,
        ) by {
            assert(a[k].active);
        }
    }
    if spec_is_ear(b, i) {
        assert forall|k: int|
            0 <= k < a.len() && (#[trigger] a[k]).active && k != i && k != a[i].prev && k
                != a[i].next implies !spec_inside_triangle(
            a[k].pt,
            a[a[i].prev as int].pt,
            a[i].pt,
            a[a[i].next as int].pt,
        ) by {
            assert(b[k].active);
        }
    }
}

/// Whether node `i`'s corner is reflex.
fn is_reflex_at(arena: &Vec<RingNode>, i: usize) -> (r: bool)
    requires
        i < arena@.len(),
        arena_links_ok(arena@),
    ensures
        r == spec_is_reflex(
            arena@[arena@[i as int].prev as int].pt,
            arena@[i as int].pt,
            arena@[arena@[i as int].next as int].pt,
        ),
{
    let p = arena[i].prev;
    let nx = arena[i].next;
    is_reflex_corner(arena[p].pt, arena[i].pt, arena[nx].pt)
}

/// Whether node `i` is an ear.
fn is_ear_at(arena: &Vec<RingNode>, i: usize) -> (r: bool)
    requires
        i < arena@.len(),
        arena_links_ok(arena@),
    ensures
        r == spec_is_ear(arena@, i as int),
{
    if is_reflex_at(arena, i) {
        return false;
    }
    let p = arena[i].prev;
    let nx = arena[i].next;
    let a = arena[p].pt;
    let b = arena[i].pt;
    let c = arena[nx].pt;
    let mut k: usize = 0;
    while k < arena.len()
        invariant
            0 <= k <= arena@.len(),
            arena_links_ok(arena@),
            i < arena@.len(),
            p == arena@[i as int].prev,
            nx == arena@[i as int].next,
            a == arena@[p as int].pt,
            b == arena@[i as int].pt,
            c == arena@[nx as int].pt,
            forall|k2: int|
                0 <= k2 < k && (#[trigger] arena@[k2]).active && k2 != i && k2 != p && k2 != nx
                    ==> !spec_inside_triangle(arena@[k2].pt, a, b, c),
        decreases arena@.len() - k,
    {
        if arena[k].active && k != i && k != p && k != nx {
            if is_inside_triangle(arena[k].pt, a, b, c) {
                return false;
            }
        }
        k = k + 1;
    }
    true
}

/// Recompute the cached corner flags of node `i` after one of its
/// neighbours was clipped away: a convex corner stays convex, a reflex
/// corner may have become convex and possibly an ear.
fn update_node(arena: &mut Vec<RingNode>, i: usize)
    requires
        i < old(arena)@.len(),
        arena_links_ok(old(arena)@),
    ensures
        final(arena)@.len() == old(arena)@.len(),
        arena_links_ok(final(arena)@),
        final(arena)@ == old(arena)@.update(i as int, spec_refreshed_node(old(arena)@, i as int)),
{
    let was_reflex = arena[i].reflex;
    let mut reflex = false;
    let mut ear = false;
    if !was_reflex {
        ear = is_ear_at(arena, i);
    } else {
        reflex = is_reflex_at(arena, i);
        if !reflex {
            ear = is_ear_at(arena, i);
        }
    }
    let mut node = arena[i];
    node.reflex = reflex;
    node.ear = ear;
    arena[i] = node;
    proof {
        assert(arena@[i as int] == spec_refreshed_node(old(arena)@, i as int));
        assert(arena@ =~= old(arena)@.update(i as int, spec_refreshed_node(old(arena)@, i as int)));
    }
}

/// The arena the clipper starts from: one node per vertex, linked in
/// a cycle, flags not yet computed.
pub open spec fn base_ring(vertices: Seq<P3>) -> Seq<RingNode> {
    Seq::new(
        vertices.len(),
        |i: int|
            RingNode {
                pt: vertices[i],
                reflex: false,
                ear: false,
                idx: i as u16,
                next: if i + 1 == vertices.len() {
                    0usize
                } else {
                    (i + 1) as usize
                },
                prev: if i == 0 {
                    (vertices.len() - 1) as usize
                } else {
                    (i - 1) as usize
                },
                active: true,
            },
    )
}

/// The starting arena with every corner and ear flag computed.
pub open spec fn flagged_ring(vertices: Seq<P3>) -> Seq<RingNode> {
    let base = base_ring(vertices);
    Seq::new(
        base.len(),
        |i: int|
            RingNode { reflex: spec_reflex_at(base, i), ear: spec_is_ear(base, i), ..base[i] },
    )
}

/// One clipping run from the given state: visit the node at `cur`;
/// clip it when its cached ear flag is set (emit its corner's three
/// indices, unlink it, refresh both neighbours' flags, back up to the
/// previous node), else move on; give up (`None`) after a full pass
/// without an ear; emit the last three corners when three remain.
pub open spec fn spec_clip(
    arena: Seq<RingNode>,
    cur: int,
    remaining: int,
    step: int,
    n: int,
    acc: Seq<u16>,
) -> Option<Seq<u16>>
    decreases remaining, n - step,
{
    if remaining <= 3 {
        let b = arena[cur].next as int;
        let c = arena[b].next as int;
        Some(acc + seq![arena[cur].idx, arena[b].idx, arena[c].idx])
    } else if step >= n {
        None
    } else if !arena[cur].ear {
        spec_clip(arena, arena[cur].next as int, remaining, step + 1, n, acc)
    } else {
        let prev = arena[cur].prev as int;
        let next = arena[cur].next as int;
        let acc2 = acc + seq![arena[prev].idx, arena[cur].idx, arena[next].idx];
        let a1 = arena.update(prev, RingNode { next: arena[cur].next, ..arena[prev] });
        let a2 = a1.update(next, RingNode { prev: arena[cur].prev, ..a1[next] });
        let a3 = a2.update(cur, RingNode { active: false, ..a2[cur] });
        let a4 = a3.update(prev, spec_refreshed_node(a3, prev));
        let a5 = a4.update(next, spec_refreshed_node(a4, next));
        spec_clip(a5, prev, remaining - 1, 0, n, acc2)
    }
}

/// What clipping a whole ring returns: the run started on the freshly
/// flagged arena at its first node.
pub open spec fn spec_make_indices(vertices: Seq<P3>) -> Option<Seq<u16>> {
    spec_clip(
        flagged_ring(vertices),
        0,
        vertices.len() as int,
        0,
        vertices.len() as int,
        Seq::empty(),
    )
}

/// Triangulate one merged ring by ear clipping.  Returns the triangle
/// list as indices into `vertices`: three indices per clipped ear,
/// then the three corners that remain.
///
/// Fails, logging the issue, when the ring has fewer than three
/// vertices (`PolyNotEnoughVertices`), when the vertices do not fit
/// 16-bit indices (`OutOfIndicesBound`), or when a full pass around
/// the ring finds no ear to clip (`NoEarsLeft`).
#[verifier::rlimit(100)]
pub fn make_indices(vertices: &Vec<P3>, logger: &mut Logger) -> (r: Option<Vec<u16>>)
    requires
        ring_bounded(vertices@),
    ensures
        vertices@.len() < 3 ==> r is None && logs_issue(
            *old(logger),
            *final(logger),
            Issue::PolyNotEnoughVertices,
        ),
        vertices@.len() >= 3 && vertices@.len() > 0x1_0000 ==> r is None && logs_issue(
            *old(logger),
            *final(logger),
            Issue::OutOfIndicesBound,
        ),
        3 <= vertices@.len() <= 0x1_0000 ==> (r is Some <==> spec_make_indices(
            vertices@,
        ) is Some),
        3 <= vertices@.len() <= 0x1_0000 ==> (r matches Some(v) ==> {
            &&& *final(logger) == *old(logger)
            &&& Some(v@) == spec_make_indices(vertices@)
            &&& v@.len() == 3 * (vertices@.len() - 2)
            &&& forall|k: int| 0 <= k < v@.len() ==> (#[trigger] v@[k]) < vertices@.len()
        }),
        3 <= vertices@.len() <= 0x1_0000 ==> (r is None ==> logs_issue(
            *old(logger),
            *final(logger),
            Issue::NoEarsLeft,
        )),
{
    let n = vertices.len();
    if n < 3 {
        logger.log(Issue::PolyNotEnoughVertices);
        return None;
    }
    if n > 0x1_0000 {
        logger.log(Issue::OutOfIndicesBound);
        return None;
    }
    let mut arena: Vec<RingNode> = Vec::new();
    let mut i: usize = 0;
    while i < n
        invariant
            0 <= i <= n == vertices@.len(),
            3 <= n <= 0x1_0000,
            ring_bounded(vertices@),
            arena@.len() == i,
            forall|k: int| 0 <= k < i ==> #[trigger] arena@[k] == base_ring(vertices@)[k],
            forall|k: int|
                0 <= k < i ==> (#[trigger] arena@[k]).next < n && arena@[k].prev < n && (
                arena@[k].idx as int) < n && pt_bounded(arena@[k].pt) && arena@[k].active,
        decreases n - i,
    {
        let node = RingNode {
            pt: vertices[i],
            reflex: false,
            ear: false,
            idx: i as u16,
            next: if i + 1 == n {
                0
            } else {
                i + 1
            },
            prev: if i == 0 {
                n - 1
            } else {
                i - 1
            },
            active: true,
        };
        arena.push(node);
        i = i + 1;
    }
    proof {
        assert(arena@ =~= base_ring(vertices@));
    }
    let ghost base = base_ring(vertices@);
    let ghost flagged = flagged_ring(vertices@);
    // first pass: corner flags; second pass: ear flags.  Neither pass
    // changes points, links or activity, and neither predicate reads
    // another node's flags, so computing against the live arena equals
    // computing against a snapshot taken before the pass
    let mut i: usize = 0;
    while i < n
        invariant
            0 <= i <= n,
            arena@.len() == n,
            3 <= n <= 0x1_0000,
            base == base_ring(vertices@),
            n == vertices@.len(),
            arena_links_ok(arena@),
            forall|k: int| 0 <= k < arena@.len() ==> (#[trigger] arena@[k].idx as int) < n,
            forall|k: int|
                0 <= k < n ==> #[trigger] arena@[k] == (if k < i {
                    RingNode { reflex: spec_reflex_at(base, k), ..base[k] }
                } else {
                    base[k]
                }),
        decreases n - i,
    {
        let r = is_reflex_at(&arena, i);
        proof {
            lemma_flags_dont_matter(arena@, base, i as int);
        }
        let mut node = arena[i];
        node.reflex = r;
        arena[i] = node;
        i = i + 1;
    }
    let mut i: usize = 0;
    while i < n
        invariant
            0 <= i <= n,
            arena@.len() == n,
            3 <= n <= 0x1_0000,
            base == base_ring(vertices@),
            flagged == flagged_ring(vertices@),
            n == vertices@.len(),
            arena_links_ok(arena@),
            forall|k: int| 0 <= k < arena@.len() ==> (#[trigger] arena@[k].idx as int) < n,
            forall|k: int|
                0 <= k < n ==> #[trigger] arena@[k] == (if k < i {
                    flagged[k]
                } else {
                    RingNode { reflex: spec_reflex_at(base, k), ..base[k] }
                }),
        decreases n - i,
    {
        let e = is_ear_at(&arena, i);
        proof {
            lemma_flags_dont_matter(arena@, base, i as int);
        }
        let mut node = arena[i];
        node.ear = e;
        arena[i] = node;
        i = i + 1;
    }
    proof {
        assert(arena@ =~= flagged);
    }
    let mut indices: Vec<u16> = Vec::new();
    let mut cur_index: usize = 0;
    let mut remaining: usize = n;
    let mut step: usize = 0;
    while remaining > 3
        invariant
            3 <= remaining <= n,
            arena@.len() == n,
            n == vertices@.len(),
            3 <= n <= 0x1_0000,
            arena_links_ok(arena@),
            forall|k: int| 0 <= k < arena@.len() ==> (#[trigger] arena@[k].idx as int) < n,
            cur_index < n,
            step <= n,
            indices@.len() == 3 * (n - remaining),
            forall|k: int| 0 <= k < indices@.len() ==> (#[trigger] indices@[k] as int) < n,
            spec_make_indices(vertices@) == spec_clip(
                arena@,
                cur_index as int,
                remaining as int,
                step as int,
                n as int,
                indices@,
            ),
            *logger == *old(logger),
        decreases remaining, n - step,
    {
        let ghost pre_arena = arena@;
        let ghost pre_acc = indices@;
        let ghost pre_cur = cur_index as int;
        step = step + 1;
        if step > n {
            logger.log(Issue::NoEarsLeft);
            return None;
        }
        if !arena[cur_index].ear {
            cur_index = arena[cur_index].next;
            continue ;
        }
        step = 0;
        let prev = arena[cur_index].prev;
        let next = arena[cur_index].next;
        indices.push(arena[prev].idx);
        indices.push(arena[cur_index].idx);
        indices.push(arena[next].idx);
        proof {
            assert(indices@ =~= pre_acc + seq![
                pre_arena[prev as int].idx,
                pre_arena[pre_cur].idx,
                pre_arena[next as int].idx,
            ]);
        }
        let mut node = arena[prev];
        node.next = next;
        arena[prev] = node;
        proof {
            assert(node == RingNode { next: pre_arena[pre_cur].next, ..pre_arena[prev as int] });
        }
        let ghost a1 = arena@;
        let mut node = arena[next];
        node.prev = prev;
        arena[next] = node;
        proof {
            assert(node == RingNode { prev: pre_arena[pre_cur].prev, ..a1[next as int] });
        }
        let ghost a2 = arena@;
        let mut node = arena[cur_index];
        node.active = false;
        arena[cur_index] = node;
        proof {
            assert(node == RingNode { active: false, ..a2[pre_cur] });
        }
        remaining = remaining - 1;
        update_node(&mut arena, prev);
        update_node(&mut arena, next);
        cur_index = prev;
    }
    // emit the last three corners, walking the links once around
    let ghost end_arena = arena@;
    let ghost end_acc = indices@;
    let a = cur_index;
    let b = arena[a].next;
    let c = arena[b].next;
    indices.push(arena[a].idx);
    indices.push(arena[b].idx);
    indices.push(arena[c].idx);
    proof {
        assert(indices@ =~= end_acc + seq![
            end_arena[a as int].idx,
            end_arena[b as int].idx,
            end_arena[c as int].idx,
        ]);
    }
    Some(indices)
}

/// The rings a cleaning pass returns are nonempty, bounded, and no
/// longer than the originals.
proof fn lemma_cleaned_rings_wf(rings: Seq<Seq<P3>>)
    requires
        forall|k: int|
            0 <= k < rings.len() ==> ring_bounded(#[trigger] rings[k]) && rings[k].len()
                <= u32::MAX,
    ensures
        forall|k: int|
            0 <= k < cleaned_rings(rings).len() ==> (#[trigger] cleaned_rings(rings)[k]).len() >= 1
                && ring_bounded(cleaned_rings(rings)[k]) && cleaned_rings(rings)[k].len()
                <= u32::MAX,
    decreases rings.len(),
{
    if rings.len() > 0 {
        assert forall|k: int| 0 <= k < rings.drop_last().len() implies ring_bounded(
            #[trigger] rings.drop_last()[k],
        ) && rings.drop_last()[k].len() <= u32::MAX by {
            assert(rings.drop_last()[k] == rings[k]);
        }
        lemma_cleaned_rings_wf(rings.drop_last());
        let pre = cleaned_rings(rings.drop_last());
        if rings.last().len() > 0 {
            lemma_dedup_adj_ends(rings.last());
            lemma_dedup_adj_bounded(rings.last());
            assert forall|k: int| 0 <= k < cleaned_rings(rings).len() implies (
            #[trigger] cleaned_rings(rings)[k]).len() >= 1 && ring_bounded(cleaned_rings(rings)[k])
                && cleaned_rings(rings)[k].len() <= u32::MAX by {
                if k < pre.len() {
                    assert(cleaned_rings(rings)[k] == pre[k]);
                } else {
                    assert(cleaned_rings(rings)[k] == dedup_adj(rings.last()));
                }
            }
        }
    }
}

/// Removing duplicates keeps every coordinate bound.
proof fn lemma_dedup_adj_bounded(s: Seq<P3>)
    ensures
        ring_bounded(s) ==> ring_bounded(dedup_adj(s)),
    decreases s.len(),
{
    if s.len() > 1 {
        lemma_dedup_adj_bounded(s.drop_last());
        assert forall|i: int| 0 <= i < s.drop_last().len() implies (#[trigger] s.drop_last()[i])
            == s[i] by {}
    }
}

/// Clean a batch of polygons: drop empty rings, drop consecutive
/// duplicate vertices, and recompute each box from the cleaned points.
pub fn clean_polyzs(polyzs: Vec<crate::data::PolygonZ>) -> (r: Vec<crate::data::PolygonZ>)
    ensures
        r@.len() == polyzs@.len(),
        forall|k: int|
            0 <= k < r@.len() ==> {
                let outs = cleaned_rings(
                    (#[trigger] polyzs@[k]).outers@.map_values(|v: Vec<P3>| v@),
                );
                let inns = cleaned_rings(polyzs@[k].inners@.map_values(|v: Vec<P3>| v@));
                &&& r@[k].style == polyzs@[k].style
                &&& r@[k].outers@.map_values(|v: Vec<P3>| v@) == outs
                &&& r@[k].inners@.map_values(|v: Vec<P3>| v@) == inns
                &&& (r@[k].all_points().len() == 0 ==> r@[k].bb == crate::data::zero_box())
                &&& (r@[k].all_points().len() > 0 ==> r@[k].bb == crate::data::stretched3(
                    sentinel_box(),
                    r@[k].all_points(),
                ))
            },
{
    let ghost inp = polyzs@;
    let mut polyzs = polyzs;
    let mut out: Vec<crate::data::PolygonZ> = Vec::new();
    let mut i: usize = 0;
    while i < polyzs.len()
        invariant
            0 <= i <= inp.len(),
            polyzs@.len() == inp.len(),
            forall|j: int| i <= j < inp.len() ==> #[trigger] polyzs@[j] == inp[j],
            out@.len() == i,
            forall|k: int|
                0 <= k < i ==> {
                    let outs = cleaned_rings(
                        (#[trigger] inp[k]).outers@.map_values(|v: Vec<P3>| v@),
                    );
                    let inns = cleaned_rings(inp[k].inners@.map_values(|v: Vec<P3>| v@));
                    &&& out@[k].style == inp[k].style
                    &&& out@[k].outers@.map_values(|v: Vec<P3>| v@) == outs
                    &&& out@[k].inners@.map_values(|v: Vec<P3>| v@) == inns
                    &&& (out@[k].all_points().len() == 0 ==> out@[k].bb == crate::data::zero_box())
                    &&& (out@[k].all_points().len() > 0 ==> out@[k].bb == crate::data::stretched3(
                        sentinel_box(),
                        out@[k].all_points(),
                    ))
                },
        decreases inp.len() - i,
    {
        let mut pz = crate::data::PolygonZ {
            inners: Vec::new(),
            outers: Vec::new(),
            bb: crate::data::default_box(),
            style: 0,
        };
        core::mem::swap(&mut pz, &mut polyzs[i]);
        let style = pz.style;
        let nouters = clean_ring_collection(pz.outers);
        let ninners = clean_ring_collection(pz.inners);
        let mut npz = crate::data::PolygonZ {
            inners: ninners,
            outers: nouters,
            bb: crate::data::default_box(),
            style,
        };
        npz.stretch_bb();
        out.push(npz);
        i = i + 1;
    }
    out
}



/// The 2D projection of a merged ring.
pub open spec fn ring_2d(ring: Seq<P3>) -> Seq<P2> {
    Seq::new(ring.len(), |i: int| (ring[i].0, ring[i].1))
}

/// The merged ring after duplicate removal and dropping a closing
/// point equal to the first.
pub open spec fn clip_input(merged: Seq<P3>) -> Seq<P3> {
    let ded = dedup_adj(merged);
    if ded.len() > 1 && ded.first() == ded.last() {
        ded.drop_last()
    } else {
        ded
    }
}

/// Triangulate one outer-ring group: bridge the assigned holes into
/// the outer ring, drop duplicate and closing points, clip the ring,
/// and build the mesh with the group's style and box.  Returns
/// nothing exactly when the ring is empty or the clipper fails (the
/// failure logged as the clipper logs it).
pub fn triangulate_group(
    outer: Vec<P3>,
    inners: Vec<Vec<P3>>,
    style: usize,
    bb: BB,
    logger: &mut Logger,
) -> (r: Option<PolyTriangle>)
    requires
        ring_bounded(outer@),
        forall|k: int|
            0 <= k < inners@.len() ==> (#[trigger] inners@[k])@.len() >= 1 && ring_bounded(
                (inners@[k])@,
            ),
    ensures
        exists|sorted: Seq<Vec<P3>>|
            {
                &&& #[trigger] sorted.to_multiset() == inners@.to_multiset()
                &&& (forall|i: int, j: int|
                    0 <= i <= j < sorted.len() ==> ring_max_x((#[trigger] sorted[i])@)
                        >= ring_max_x((#[trigger] sorted[j])@))
                &&& {
                    let merged = bridge_fold(outer@, sorted);
                    let ded = clip_input(merged);
                    &&& (r is Some <==> merged.len() > 0 && 3 <= ded.len() <= 0x1_0000
                        && spec_make_indices(ded) is Some)
                    &&& (r matches Some(m) ==> {
                        &&& m.style == style
                        &&& m.bb == bb
                        &&& m.vertices@ == ring_2d(ded)
                        &&& Some(m.indices@) == spec_make_indices(ded)
                        &&& *final(logger) == *old(logger)
                    })
                    &&& (r is None && merged.len() == 0 ==> *final(logger) == *old(logger))
                    &&& (r is None && merged.len() > 0 ==> (logs_issue(
                        *old(logger),
                        *final(logger),
                        Issue::PolyNotEnoughVertices,
                    ) || logs_issue(
                        *old(logger),
                        *final(logger),
                        Issue::OutOfIndicesBound,
                    ) || logs_issue(*old(logger), *final(logger), Issue::NoEarsLeft)))
                }
            },
{
    let ghost outer0 = outer@;
    let mut outer = outer;
    let vertices = merge_inner(&mut outer, inners);
    let ghost sorted = choose|sorted: Seq<Vec<P3>>|
        {
            &&& #[trigger] sorted.to_multiset() == inners@.to_multiset()
            &&& (forall|i: int, j: int|
                0 <= i <= j < sorted.len() ==> ring_max_x((#[trigger] sorted[i])@) >= ring_max_x(
                    (#[trigger] sorted[j])@,
                ))
            &&& vertices@ == bridge_fold(outer0, sorted)
        };
    if vertices.len() == 0 {
        proof {
            assert(bridge_fold(outer0, sorted).len() == 0);
            assert(clip_input(bridge_fold(outer0, sorted)) =~= Seq::<P3>::empty());
        }
        return None;
    }
    let ghost merged_view = vertices@;
    let mut vertices = dedup_ring(vertices);
    proof {
        lemma_dedup_adj_bounded(merged_view);
    }
    let vl = vertices.len();
    if vl >= 1 {
        let first = vertices[0];
        let last = vertices[vl - 1];
        if vl > 1 && first.0 == last.0 && first.1 == last.1 && first.2 == last.2 {
            let ghost before_pop = vertices@;
            vertices.pop();
            proof {
                assert forall|m: int| 0 <= m < vertices@.len() implies pt_bounded(
                    #[trigger] vertices@[m],
                ) by {
                    assert(vertices@[m] == before_pop[m]);
                }
            }
        }
    }
    proof {
        assert(vertices@ == clip_input(merged_view));
    }
    let cur_indices = match make_indices(&vertices, logger) {
        Some(x) => x,
        None => {
            return None;
        },
    };
    let mut p2vertices: Vec<P2> = Vec::new();
    let mut v: usize = 0;
    while v < vertices.len()
        invariant
            0 <= v <= vertices@.len(),
            p2vertices@.len() == v,
            forall|i: int|
                0 <= i < v ==> #[trigger] p2vertices@[i] == (vertices@[i].0, vertices@[i].1),
        decreases vertices@.len() - v,
    {
        let p = vertices[v];
        p2vertices.push((p.0, p.1));
        v = v + 1;
    }
    proof {
        assert(p2vertices@ =~= ring_2d(vertices@));
    }
    Some(PolyTriangle { vertices: p2vertices, indices: cur_indices, style, bb })
}

/// Every ring a grouping assigns is one of the polygon's inner rings.
proof fn lemma_assigned_membership(inns: Seq<Vec<P3>>, outs: Seq<Seq<P3>>, k: int, j: int)
    requires
        0 <= j <= inns.len(),
    ensures
        forall|m: int|
            0 <= m < assigned_upto(inns, outs, k, j).len() ==> exists|j2: int|
                0 <= j2 < inns.len() && #[trigger] assigned_upto(inns, outs, k, j)[m] == inns[j2],
    decreases j,
{
    if j > 0 {
        lemma_assigned_membership(inns, outs, k, j - 1);
        let pre = assigned_upto(inns, outs, k, j - 1);
        let cur = assigned_upto(inns, outs, k, j);
        assert forall|m: int| 0 <= m < cur.len() implies exists|j2: int|
            0 <= j2 < inns.len() && #[trigger] cur[m] == inns[j2] by {
            if m < pre.len() {
                assert(cur[m] == pre[m]);
            } else {
                assert(cur[m] == inns[j - 1]);
            }
        }
    }
}

/// Triangulate a batch of polygons with holes.  Each polygon is
/// cleaned, its rings' orientations repaired, its inner rings grouped
/// under their innermost enclosing outer rings, its holes bridged into
/// the outer rings, and each merged ring clipped into triangles.  A
/// ring the clipper rejects is skipped with the issue logged.
///
/// Every returned mesh is a plain triangle list: the index list's
/// length is three times the vertex count minus two, a multiple of
/// three, and every index is in range.
pub fn triangulate(polyzs: Vec<crate::data::PolygonZ>, logger: &mut Logger) -> (r: Vec<
    PolyTriangle,
>)
    requires
        forall|k: int, j: int|
            0 <= k < polyzs@.len() && 0 <= j < (#[trigger] polyzs@[k]).outers@.len()
                ==> ring_bounded((#[trigger] polyzs@[k].outers@[j])@) && (
            polyzs@[k].outers@[j])@.len() <= u32::MAX,
        forall|k: int, j: int|
            0 <= k < polyzs@.len() && 0 <= j < (#[trigger] polyzs@[k]).inners@.len()
                ==> ring_bounded((#[trigger] polyzs@[k].inners@[j])@) && (
            polyzs@[k].inners@[j])@.len() <= u32::MAX,
    ensures
        forall|k: int|
            0 <= k < r@.len() ==> {
                &&& (#[trigger] r@[k]).vertices@.len() >= 3
                &&& r@[k].indices@.len() == 3 * (r@[k].vertices@.len() - 2)
                &&& r@[k].indices@.len() % 3 == 0
                &&& forall|m: int|
                    0 <= m < r@[k].indices@.len() ==> ((#[trigger] r@[k].indices@[m]) as int)
                        < r@[k].vertices@.len()
            },
{
    let mut res: Vec<PolyTriangle> = Vec::new();
    let cleaned = clean_polyzs(polyzs);
    let ghost cleaned_view = cleaned@;
    let mut cleaned = cleaned;
    let ghost inp = polyzs@;
    let mut i: usize = 0;
    while i < cleaned.len()
        invariant
            0 <= i <= cleaned_view.len(),
            cleaned@.len() == cleaned_view.len(),
            cleaned_view.len() == inp.len(),
            forall|j: int| i <= j < cleaned_view.len() ==> #[trigger] cleaned@[j] == cleaned_view[j],
            forall|k: int, j: int|
                0 <= k < inp.len() && 0 <= j < (#[trigger] inp[k]).outers@.len() ==> ring_bounded(
                    (#[trigger] inp[k].outers@[j])@,
                ) && (inp[k].outers@[j])@.len() <= u32::MAX,
            forall|k: int, j: int|
                0 <= k < inp.len() && 0 <= j < (#[trigger] inp[k]).inners@.len() ==> ring_bounded(
                    (#[trigger] inp[k].inners@[j])@,
                ) && (inp[k].inners@[j])@.len() <= u32::MAX,
            forall|k: int|
                0 <= k < cleaned_view.len() ==> (#[trigger] cleaned_view[k]).outers@.map_values(
                    |v: Vec<P3>| v@,
                ) == cleaned_rings(inp[k].outers@.map_values(|v: Vec<P3>| v@))
                    && cleaned_view[k].inners@.map_values(|v: Vec<P3>| v@) == cleaned_rings(
                    inp[k].inners@.map_values(|v: Vec<P3>| v@),
                ),
            forall|k: int|
                0 <= k < res@.len() ==> {
                    &&& (#[trigger] res@[k]).vertices@.len() >= 3
                    &&& res@[k].indices@.len() == 3 * (res@[k].vertices@.len() - 2)
                    &&& res@[k].indices@.len() % 3 == 0
                    &&& forall|m: int|
                        0 <= m < res@[k].indices@.len() ==> ((#[trigger] res@[k].indices@[m]) as int)
                            < res@[k].vertices@.len()
                },
        decreases cleaned_view.len() - i,
    {
        let mut polygon = crate::data::PolygonZ {
            inners: Vec::new(),
            outers: Vec::new(),
            bb: crate::data::default_box(),
            style: 0,
        };
        core::mem::swap(&mut polygon, &mut cleaned[i]);
        let style = polygon.style;
        let bb = polygon.bb;
        proof {
            lemma_cleaned_rings_wf(inp[i as int].outers@.map_values(|v: Vec<P3>| v@));
            lemma_cleaned_rings_wf(inp[i as int].inners@.map_values(|v: Vec<P3>| v@));
            assert forall|j: int| 0 <= j < polygon.outers@.len() implies ring_bounded(
                (#[trigger] polygon.outers@[j])@,
            ) && (polygon.outers@[j])@.len() <= u32::MAX && (polygon.outers@[j])@.len() >= 1 by {
                assert((polygon.outers@[j])@ == polygon.outers@.map_values(|v: Vec<P3>| v@)[j]);
            }
            assert forall|j: int| 0 <= j < polygon.inners@.len() implies ring_bounded(
                (#[trigger] polygon.inners@[j])@,
            ) && (polygon.inners@[j])@.len() <= u32::MAX && (polygon.inners@[j])@.len() >= 1 by {
                assert((polygon.inners@[j])@ == polygon.inners@.map_values(|v: Vec<P3>| v@)[j]);
            }
        }
        let ghost poly_pre = polygon;
        fix_order(&mut polygon);
        proof {
            assert forall|j: int| 0 <= j < polygon.outers@.len() implies ring_bounded(
                (#[trigger] polygon.outers@[j])@,
            ) && (polygon.outers@[j])@.len() >= 1 by {
                let orig = (poly_pre.outers@[j])@;
                if (polygon.outers@[j])@ == orig.reverse() {
                    assert forall|m: int| 0 <= m < orig.reverse().len() implies pt_bounded(
                        #[trigger] orig.reverse()[m],
                    ) by {
                        assert(orig.reverse()[m] == orig[orig.len() - 1 - m]);
                    }
                }
            }
            assert forall|j: int| 0 <= j < polygon.inners@.len() implies ring_bounded(
                (#[trigger] polygon.inners@[j])@,
            ) && (polygon.inners@[j])@.len() >= 1 by {
                let orig = (poly_pre.inners@[j])@;
                if (polygon.inners@[j])@ == orig.reverse() {
                    assert forall|m: int| 0 <= m < orig.reverse().len() implies pt_bounded(
                        #[trigger] orig.reverse()[m],
                    ) by {
                        assert(orig.reverse()[m] == orig[orig.len() - 1 - m]);
                    }
                }
            }
        }
        let ghost poly_grouped = polygon;
        let grouped = group_polygons(polygon, logger);
        let ghost grouped_view = grouped@;
        proof {
            let inns = poly_grouped.inners@;
            let outs = poly_grouped.outers@.map_values(|v: Vec<P3>| v@);
            assert forall|j: int, m: int|
                0 <= j < grouped_view.len() && 0 <= m < (#[trigger] grouped_view[j]).1@.len()
                    implies ring_bounded(((#[trigger] grouped_view[j].1@[m]))@) && ((
            grouped_view[j].1@[m]))@.len() >= 1 by {
                lemma_assigned_membership(inns, outs, j, inns.len() as int);
                assert(grouped_view[j].1@ == assigned_upto(inns, outs, j, inns.len() as int));
                let j2 = choose|j2: int|
                    0 <= j2 < inns.len() && #[trigger] assigned_upto(
                        inns,
                        outs,
                        j,
                        inns.len() as int,
                    )[m] == inns[j2];
            }
        }
        let mut grouped = grouped;
        let mut g: usize = 0;
        while g < grouped.len()
            invariant
                0 <= g <= grouped_view.len(),
                grouped@.len() == grouped_view.len(),
                forall|j: int| g <= j < grouped_view.len() ==> #[trigger] grouped@[j] == grouped_view[j],
                forall|j: int|
                    0 <= j < grouped_view.len() ==> ring_bounded(
                        ((#[trigger] grouped_view[j]).0)@,
                    ),
                forall|j: int, m: int|
                    0 <= j < grouped_view.len() && 0 <= m < (#[trigger] grouped_view[j]).1@.len()
                        ==> ring_bounded(((#[trigger] grouped_view[j].1@[m]))@) && ((
                    grouped_view[j].1@[m]))@.len() >= 1,
                forall|k: int|
                    0 <= k < res@.len() ==> {
                        &&& (#[trigger] res@[k]).vertices@.len() >= 3
                        &&& res@[k].indices@.len() == 3 * (res@[k].vertices@.len() - 2)
                        &&& res@[k].indices@.len() % 3 == 0
                        &&& forall|m: int|
                            0 <= m < res@[k].indices@.len() ==> ((
                            #[trigger] res@[k].indices@[m]) as int) < res@[k].vertices@.len()
                    },
            decreases grouped_view.len() - g,
        {
            let mut pair: (Vec<P3>, Vec<Vec<P3>>) = (Vec::new(), Vec::new());
            core::mem::swap(&mut pair, &mut grouped[g]);
            let mut outer = pair.0;
            let inners = pair.1;
            let vertices = merge_inner(&mut outer, inners);
            if vertices.len() == 0 {
                g = g + 1;
                continue ;
            }
            let ghost merged_view = vertices@;
            let mut vertices = dedup_ring(vertices);
            proof {
                lemma_dedup_adj_bounded(merged_view);
            }
            let vl = vertices.len();
            if vl >= 1 {
                let first = vertices[0];
                let last = vertices[vl - 1];
                if vl > 1 && first.0 == last.0 && first.1 == last.1 && first.2 == last.2 {
                    let ghost before_pop = vertices@;
                    vertices.pop();
                    proof {
                        assert forall|m: int| 0 <= m < vertices@.len() implies pt_bounded(
                            #[trigger] vertices@[m],
                        ) by {
                            assert(vertices@[m] == before_pop[m]);
                        }
                    }
                }
            }
            let cur_indices = match make_indices(&vertices, logger) {
                Some(x) => x,
                None => {
                    g = g + 1;
                    continue ;
                },
            };
            let mut p2vertices: Vec<P2> = Vec::new();
            let mut v: usize = 0;
            while v < vertices.len()
                invariant
                    0 <= v <= vertices@.len(),
                    p2vertices@.len() == v,
                decreases vertices@.len() - v,
            {
                let p = vertices[v];
                p2vertices.push((p.0, p.1));
                v = v + 1;
            }
            proof {
                vstd::arithmetic::div_mod::lemma_mod_multiples_basic(
                    vertices@.len() as int - 2,
                    3,
                );
            }
            res.push(
                PolyTriangle { vertices: p2vertices, indices: cur_indices, style, bb },
            );
            g = g + 1;
        }
        i = i + 1;
    }
    res
}

} // verus!
