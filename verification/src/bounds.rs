//! Axis-aligned bounds of a mesh's vertices.
//!
//! A mesh's bounding sphere is centred on the box that its vertices span.
//! The box is found here, on the encodings of the vertices' `f32`
//! coordinates, by folding `f32::min` and `f32::max` over the vertices from
//! the first one on; the centre and radius are then computed in `f32` by the
//! caller.
use vstd::prelude::*;
use crate::float_bits::{bits_max, bits_min, is_nan, max_ignoring_nan, min_ignoring_nan, order_key};

verus! {

/// A point's coordinates, each the encoding of an `f32`.
#[derive(Clone, Copy, PartialEq, Eq, Structural, Debug)]
pub struct Point3 {
    pub x: u32,
    pub y: u32,
    pub z: u32,
}

/// Componentwise `f32::min`.
pub open spec fn lower(a: Point3, b: Point3) -> Point3 {
    Point3 {
        x: min_ignoring_nan(a.x, b.x),
        y: min_ignoring_nan(a.y, b.y),
        z: min_ignoring_nan(a.z, b.z),
    }
}

/// Componentwise `f32::max`.
pub open spec fn upper(a: Point3, b: Point3) -> Point3 {
    Point3 {
        x: max_ignoring_nan(a.x, b.x),
        y: max_ignoring_nan(a.y, b.y),
        z: max_ignoring_nan(a.z, b.z),
    }
}

/// The corners `(min, max)` after folding over the first `n` points, both
/// starting from the first point.
pub open spec fn box_upto(points: Seq<Point3>, n: int) -> (Point3, Point3)
    decreases n,
{
    if n <= 0 {
        (points[0], points[0])
    } else {
        let (lo, hi) = box_upto(points, n - 1);
        (lower(lo, points[n - 1]), upper(hi, points[n - 1]))
    }
}

/// Whether no coordinate of the first `n` points is a NaN.
pub open spec fn no_nan_upto(points: Seq<Point3>, n: int) -> bool {
    forall|i: int|
        0 <= i < n ==> !is_nan((#[trigger] points[i]).x) && !is_nan(points[i].y) && !is_nan(
            points[i].z,
        )
}

/// Whether `p` lies within the box with corners `lo` and `hi`.
pub open spec fn within(lo: Point3, p: Point3, hi: Point3) -> bool {
    &&& order_key(lo.x) <= order_key(p.x) <= order_key(hi.x)
    &&& order_key(lo.y) <= order_key(p.y) <= order_key(hi.y)
    &&& order_key(lo.z) <= order_key(p.z) <= order_key(hi.z)
}

/// The box spanned by the points: the componentwise minimum and maximum of
/// their coordinates.  A mesh without vertices has no box.
pub fn bounding_box(points: &Vec<Point3>) -> (r: (Point3, Point3))
    requires
        points.len() > 0,
    ensures
        r == box_upto(points@, points.len() as int),
{
    let mut lo = points[0];
    let mut hi = points[0];
    let mut i: usize = 0;
    while i < points.len()
        invariant
            0 < points.len(),
            i <= points.len(),
            (lo, hi) == box_upto(points@, i as int),
        decreases points.len() - i,
    {
        let p = points[i];
        lo = Point3 { x: bits_min(lo.x, p.x), y: bits_min(lo.y, p.y), z: bits_min(lo.z, p.z) };
        hi = Point3 { x: bits_max(hi.x, p.x), y: bits_max(hi.y, p.y), z: bits_max(hi.z, p.z) };
        i = i + 1;
    }
    (lo, hi)
}

/// The box holds every point, and it is the smallest such box: each of its
/// coordinates is the coordinate of some point.  (Stated for points without
/// NaN coordinates; a NaN coordinate is skipped by `f32::min` and
/// `f32::max`.)
pub proof fn lemma_bounding_box_is_tight(points: Seq<Point3>, n: int)
    requires
        0 < points.len(),
        0 <= n <= points.len(),
        no_nan_upto(points, points.len() as int),
    ensures
        forall|i: int|
            0 <= i < n ==> within(box_upto(points, n).0, #[trigger] points[i], box_upto(points, n).1),
        exists|i: int| 0 <= i < points.len() && #[trigger] points[i].x == box_upto(points, n).0.x,
        exists|i: int| 0 <= i < points.len() && #[trigger] points[i].y == box_upto(points, n).0.y,
        exists|i: int| 0 <= i < points.len() && #[trigger] points[i].z == box_upto(points, n).0.z,
        exists|i: int| 0 <= i < points.len() && #[trigger] points[i].x == box_upto(points, n).1.x,
        exists|i: int| 0 <= i < points.len() && #[trigger] points[i].y == box_upto(points, n).1.y,
        exists|i: int| 0 <= i < points.len() && #[trigger] points[i].z == box_upto(points, n).1.z,
    decreases n,
{
    let p0 = points[0];
    assert(!is_nan(p0.x) && !is_nan(p0.y) && !is_nan(p0.z));
    if n > 0 {
        lemma_bounding_box_is_tight(points, n - 1);
        let p = points[n - 1];
        assert(!is_nan(p.x) && !is_nan(p.y) && !is_nan(p.z));
        let (lo, hi) = box_upto(points, n - 1);
        let lo_x_at = choose|i: int| 0 <= i < points.len() && #[trigger] points[i].x == lo.x;
        let lo_y_at = choose|i: int| 0 <= i < points.len() && #[trigger] points[i].y == lo.y;
        let lo_z_at = choose|i: int| 0 <= i < points.len() && #[trigger] points[i].z == lo.z;
        let hi_x_at = choose|i: int| 0 <= i < points.len() && #[trigger] points[i].x == hi.x;
        let hi_y_at = choose|i: int| 0 <= i < points.len() && #[trigger] points[i].y == hi.y;
        let hi_z_at = choose|i: int| 0 <= i < points.len() && #[trigger] points[i].z == hi.z;
        assert(!is_nan(points[lo_x_at].x) && !is_nan(points[lo_y_at].y) && !is_nan(points[lo_z_at].z));
        assert(!is_nan(points[hi_x_at].x) && !is_nan(points[hi_y_at].y) && !is_nan(points[hi_z_at].z));
        assert forall|i: int| 0 <= i < n implies within(
            box_upto(points, n).0,
            #[trigger] points[i],
            box_upto(points, n).1,
        ) by {
            if i < n - 1 {
                assert(within(lo, points[i], hi));
            }
        }
    } else {
        assert(points[0].x == box_upto(points, n).0.x);
        assert(points[0].y == box_upto(points, n).0.y);
        assert(points[0].z == box_upto(points, n).0.z);
        assert(points[0].x == box_upto(points, n).1.x);
        assert(points[0].y == box_upto(points, n).1.y);
        assert(points[0].z == box_upto(points, n).1.z);
    }
}

} // verus!
