//! Which hits a plane, a sphere, a general quadric or a triangle contributes
//! to a ray.
//!
//! The surfaces themselves are evaluated in `f32` by the caller: for a
//! plane the value of its equation at the ray's origin and the dot product
//! of its normal with the ray's direction, for a quadric the leading
//! coefficient, the discriminant and the two roots.  What is decided from
//! those numbers (whether there are hits at all, which of them enter and
//! which leave, and where a half-space reaches to infinity) is decided here,
//! on the values' encodings (see [`crate::float_bits`]).  The hits come out
//! as an object's hit pool holds them, in order of distance.
//!
//! Each hit is a [`HitRecord`] whose tag says which point it stands for, so
//! that the caller can attach the position and normal it computed.
use vstd::prelude::*;
use crate::csg::{HitRecord, alternating, sorted_from};
use crate::float_bits::{
    INFINITY_BITS, NEG_INFINITY_BITS, ONE_BITS, ZERO_BITS, bits_le, bits_lt, is_nan, le, lt,
    magnitude, order_key,
};

verus! {

/// Tag of a plane's hit that lies at infinity and has no position.
pub const AT_INFINITY: usize = 0;

/// Tag of a plane's hit where the ray crosses the plane.
pub const CROSSING: usize = 1;

/// Tag of a quadric's hit at its first root.
pub const NEAR_ROOT: usize = 0;

/// Tag of a quadric's hit at its second root.
pub const FAR_ROOT: usize = 1;

/// Whether the encoding stands for `0.0` or `-0.0`.
pub open spec fn is_zero(bits: u32) -> bool {
    magnitude(bits) == 0
}

/// Whether the value is `== 0.0` as `f32` compares it.
pub fn bits_is_zero(bits: u32) -> (r: bool)
    ensures
        r == is_zero(bits),
{
    bits % 0x8000_0000 == 0
}

/// The hits of the half-space `ax + by + cz + d <= 0` along a ray, in the
/// order in which they are added to the hit pool.  `offset` is the plane's
/// equation at the ray's origin, `facing` the dot product of `(a, b, c)`
/// with the ray's direction and `t` the distance `offset / -facing` at which
/// the ray crosses the plane.
///
/// A ray parallel to the plane (`facing == 0`) lies wholly inside when
/// `offset < 0`, from minus to plus infinity, and has no hit otherwise.  A
/// ray along the normal (`facing > 0`) has been inside since minus infinity
/// and leaves at `t`; any other ray enters at `t` and stays inside.
pub open spec fn plane_hit_seq(offset: u32, facing: u32, t: u32) -> Seq<HitRecord> {
    if is_zero(facing) {
        if lt(offset, ZERO_BITS) {
            seq![
                HitRecord { distance: NEG_INFINITY_BITS, entering: true, tag: AT_INFINITY },
                HitRecord { distance: INFINITY_BITS, entering: false, tag: AT_INFINITY },
            ]
        } else {
            Seq::empty()
        }
    } else if lt(ZERO_BITS, facing) {
        seq![
            HitRecord { distance: NEG_INFINITY_BITS, entering: true, tag: AT_INFINITY },
            HitRecord { distance: t, entering: false, tag: CROSSING },
        ]
    } else {
        seq![
            HitRecord { distance: t, entering: true, tag: CROSSING },
            HitRecord { distance: INFINITY_BITS, entering: false, tag: AT_INFINITY },
        ]
    }
}

/// The two hits of a surface met at the roots `t0` (where the ray enters)
/// and `t1` (where it leaves), as the hit pool holds them: in order of
/// distance.  When the first root lies beyond the second (a quadric whose
/// leading coefficient is negative) the exit comes first; when neither is
/// nearer (equal, or a NaN) they stay in the order in which they are added.
pub open spec fn root_pair(t0: u32, t1: u32) -> Seq<HitRecord> {
    if lt(t1, t0) {
        seq![
            HitRecord { distance: t1, entering: false, tag: FAR_ROOT },
            HitRecord { distance: t0, entering: true, tag: NEAR_ROOT },
        ]
    } else {
        seq![
            HitRecord { distance: t0, entering: true, tag: NEAR_ROOT },
            HitRecord { distance: t1, entering: false, tag: FAR_ROOT },
        ]
    }
}

/// The hits of a sphere along a ray: none when the discriminant is
/// negative, else an entry at the first root and an exit at the second, in
/// order of distance (see [`root_pair`]).
pub open spec fn sphere_hit_seq(discriminant: u32, t0: u32, t1: u32) -> Seq<HitRecord> {
    if lt(discriminant, ZERO_BITS) {
        Seq::empty()
    } else {
        root_pair(t0, t1)
    }
}

/// The hits of a general quadric along a ray: none when the discriminant is
/// negative, when the leading coefficient is zero, or when both roots lie
/// behind the origin; else an entry at the first root and an exit at the
/// second, in order of distance (see [`root_pair`]).
pub open spec fn quadric_hit_seq(leading: u32, discriminant: u32, t0: u32, t1: u32) -> Seq<
    HitRecord,
> {
    if lt(discriminant, ZERO_BITS) || is_zero(leading) {
        Seq::empty()
    } else if lt(t0, ZERO_BITS) && lt(t1, ZERO_BITS) {
        Seq::empty()
    } else {
        root_pair(t0, t1)
    }
}

/// Encoding of `0.000001_f32`, the determinant below which a ray counts as
/// lying in a triangle's plane.
pub const TRIANGLE_EPSILON: u32 = 0x3586_37bd;

/// Encoding of `-0.000001_f32`.
pub const NEG_TRIANGLE_EPSILON: u32 = 0xb586_37bd;

/// Whether a ray meets a triangle (Möller–Trumbore, both faces), and if so
/// whether it enters there, from the determinant `det` of the ray's
/// direction and the triangle's edges and the barycentric coordinates `u`
/// and `v` of the meeting point (`u_plus_v` their `f32` sum).  A ray that
/// lies in the triangle's plane (`|det| < 0.000001`) misses it, as does one
/// whose meeting point has `u` outside `[0, 1]`, `v < 0` or `u + v > 1`;
/// otherwise the ray enters when `det < 0`.
///
/// This is the mesh object that stores its material behind an `Arc` and
/// adds its hits to a hit pool: a NaN `u` counts as outside `[0, 1]`, and a
/// negative determinant means entering.  (The tracer's other mesh object
/// tests `u < 0 || u > 1`, which lets a NaN `u` through, and enters when
/// `det >= 0`; it is not the one followed here.)
pub open spec fn triangle_entry(det: u32, u: u32, v: u32, u_plus_v: u32) -> Option<bool> {
    if lt(NEG_TRIANGLE_EPSILON, det) && lt(det, TRIANGLE_EPSILON) {
        None
    } else if !(le(ZERO_BITS, u) && le(u, ONE_BITS)) {
        None
    } else if lt(v, ZERO_BITS) || lt(ONE_BITS, u_plus_v) {
        None
    } else {
        Some(lt(det, ZERO_BITS))
    }
}

/// Decides whether a ray meets a triangle and whether it enters there (see
/// [`triangle_entry`]).
pub fn triangle_hit(det: u32, u: u32, v: u32, u_plus_v: u32) -> (r: Option<bool>)
    ensures
        r == triangle_entry(det, u, v, u_plus_v),
{
    if bits_lt(NEG_TRIANGLE_EPSILON, det) && bits_lt(det, TRIANGLE_EPSILON) {
        return None;
    }
    if !(bits_le(ZERO_BITS, u) && bits_le(u, ONE_BITS)) {
        return None;
    }
    if bits_lt(v, ZERO_BITS) || bits_lt(ONE_BITS, u_plus_v) {
        return None;
    }
    Some(bits_lt(det, ZERO_BITS))
}

/// Decides the hits of a plane along a ray (see [`plane_hit_seq`]).
pub fn plane_hits(offset: u32, facing: u32, t: u32) -> (hits: Vec<HitRecord>)
    ensures
        hits@ == plane_hit_seq(offset, facing, t),
{
    let mut hits: Vec<HitRecord> = Vec::new();
    if bits_is_zero(facing) {
        if bits_lt(offset, ZERO_BITS) {
            hits.push(HitRecord { distance: NEG_INFINITY_BITS, entering: true, tag: AT_INFINITY });
            hits.push(HitRecord { distance: INFINITY_BITS, entering: false, tag: AT_INFINITY });
        }
    } else if bits_lt(ZERO_BITS, facing) {
        hits.push(HitRecord { distance: NEG_INFINITY_BITS, entering: true, tag: AT_INFINITY });
        hits.push(HitRecord { distance: t, entering: false, tag: CROSSING });
    } else {
        hits.push(HitRecord { distance: t, entering: true, tag: CROSSING });
        hits.push(HitRecord { distance: INFINITY_BITS, entering: false, tag: AT_INFINITY });
    }
    hits
}

/// The entry at `t0` and the exit at `t1`, nearer first (see
/// [`root_pair`]).
fn roots_in_order(t0: u32, t1: u32) -> (hits: Vec<HitRecord>)
    ensures
        hits@ == root_pair(t0, t1),
{
    let mut hits: Vec<HitRecord> = Vec::new();
    if bits_lt(t1, t0) {
        hits.push(HitRecord { distance: t1, entering: false, tag: FAR_ROOT });
        hits.push(HitRecord { distance: t0, entering: true, tag: NEAR_ROOT });
    } else {
        hits.push(HitRecord { distance: t0, entering: true, tag: NEAR_ROOT });
        hits.push(HitRecord { distance: t1, entering: false, tag: FAR_ROOT });
    }
    hits
}

/// Decides the hits of a sphere along a ray (see [`sphere_hit_seq`]).
pub fn sphere_hits(discriminant: u32, t0: u32, t1: u32) -> (hits: Vec<HitRecord>)
    ensures
        hits@ == sphere_hit_seq(discriminant, t0, t1),
{
    if bits_lt(discriminant, ZERO_BITS) {
        Vec::new()
    } else {
        roots_in_order(t0, t1)
    }
}

/// Decides the hits of a general quadric along a ray (see
/// [`quadric_hit_seq`]).
pub fn quadric_hits(leading: u32, discriminant: u32, t0: u32, t1: u32) -> (hits: Vec<HitRecord>)
    ensures
        hits@ == quadric_hit_seq(leading, discriminant, t0, t1),
{
    let mut hits: Vec<HitRecord> = Vec::new();
    if bits_lt(discriminant, ZERO_BITS) || bits_is_zero(leading) {
        return hits;
    }
    if bits_lt(t0, ZERO_BITS) && bits_lt(t1, ZERO_BITS) {
        return hits;
    }
    roots_in_order(t0, t1)
}

/// A plane's hits describe a solid that the CSG merger can take as an
/// operand: entries and exits alternate, starting with an entry, and,
/// unless the crossing distance is a NaN, they are in order of distance.
pub proof fn lemma_plane_hits_form_solid(offset: u32, facing: u32, t: u32)
    requires
        !is_nan(t),
    ensures
        alternating(plane_hit_seq(offset, facing, t)),
        sorted_from(plane_hit_seq(offset, facing, t), 0),
{
    let s = plane_hit_seq(offset, facing, t);
    assert(order_key(NEG_INFINITY_BITS) <= order_key(t) <= order_key(INFINITY_BITS));
    assert forall|k: int| 0 <= k < s.len() implies (#[trigger] s[k]).entering == (k % 2 == 0) by {}
}

/// Two roots give their hits in order of distance whenever neither is a
/// NaN; the hits alternate, entry first, whenever the first root is not
/// beyond the second.
pub proof fn lemma_root_pair_in_order(t0: u32, t1: u32)
    ensures
        !is_nan(t0) && !is_nan(t1) ==> sorted_from(root_pair(t0, t1), 0),
        !lt(t1, t0) ==> alternating(root_pair(t0, t1)),
{
    let s = root_pair(t0, t1);
    if !lt(t1, t0) {
        assert forall|k: int| 0 <= k < s.len() implies (#[trigger] s[k]).entering == (k % 2 == 0) by {}
    }
}

/// A sphere's hits are in order of distance whenever neither root is a
/// NaN; they alternate, entry first, whenever the first root is not beyond
/// the second.
pub proof fn lemma_sphere_hits_form_solid(discriminant: u32, t0: u32, t1: u32)
    ensures
        !is_nan(t0) && !is_nan(t1) ==> sorted_from(sphere_hit_seq(discriminant, t0, t1), 0),
        !lt(t1, t0) ==> alternating(sphere_hit_seq(discriminant, t0, t1)),
{
    lemma_root_pair_in_order(t0, t1);
}

/// A quadric's hits are in order of distance whenever neither root is a
/// NaN; they alternate, entry first, whenever the first root is not beyond
/// the second.
pub proof fn lemma_quadric_hits_form_solid(leading: u32, discriminant: u32, t0: u32, t1: u32)
    ensures
        !is_nan(t0) && !is_nan(t1) ==> sorted_from(
            quadric_hit_seq(leading, discriminant, t0, t1),
            0,
        ),
        !lt(t1, t0) ==> alternating(quadric_hit_seq(leading, discriminant, t0, t1)),
{
    lemma_root_pair_in_order(t0, t1);
}

/// When a quadric gives hits at all: exactly when the discriminant is not
/// negative, the leading coefficient is not zero and some root is not
/// behind the origin.  It then gives two hits, an entry at the first root
/// and an exit at the second, so a root in front of the origin is never
/// dropped.
pub proof fn lemma_quadric_hits_kept(leading: u32, discriminant: u32, t0: u32, t1: u32)
    ensures
        quadric_hit_seq(leading, discriminant, t0, t1).len() == 0 <==> (lt(discriminant, ZERO_BITS)
            || is_zero(leading) || (lt(t0, ZERO_BITS) && lt(t1, ZERO_BITS))),
        quadric_hit_seq(leading, discriminant, t0, t1).len() == 0 || quadric_hit_seq(
            leading,
            discriminant,
            t0,
            t1,
        ).len() == 2,
        !lt(discriminant, ZERO_BITS) && !is_zero(leading) && (lt(ZERO_BITS, t0) || lt(
            ZERO_BITS,
            t1,
        )) ==> quadric_hit_seq(leading, discriminant, t0, t1).len() == 2,
        quadric_hit_seq(leading, discriminant, t0, t1).len() == 2 ==> {
            let s = quadric_hit_seq(leading, discriminant, t0, t1);
            &&& s.contains(HitRecord { distance: t0, entering: true, tag: NEAR_ROOT })
            &&& s.contains(HitRecord { distance: t1, entering: false, tag: FAR_ROOT })
        },
{
    let s = quadric_hit_seq(leading, discriminant, t0, t1);
    if s.len() == 2 {
        if lt(t1, t0) {
            assert(s[1] == HitRecord { distance: t0, entering: true, tag: NEAR_ROOT });
            assert(s[0] == HitRecord { distance: t1, entering: false, tag: FAR_ROOT });
        } else {
            assert(s[0] == HitRecord { distance: t0, entering: true, tag: NEAR_ROOT });
            assert(s[1] == HitRecord { distance: t1, entering: false, tag: FAR_ROOT });
        }
    }
    if lt(ZERO_BITS, t0) {
        assert(!lt(t0, ZERO_BITS));
    }
    if lt(ZERO_BITS, t1) {
        assert(!lt(t1, ZERO_BITS));
    }
}

/// A sphere gives hits exactly when the discriminant is not negative, and
/// then two: an entry at the first root and an exit at the second.
pub proof fn lemma_sphere_hits_kept(discriminant: u32, t0: u32, t1: u32)
    ensures
        sphere_hit_seq(discriminant, t0, t1).len() == 0 <==> lt(discriminant, ZERO_BITS),
        !lt(discriminant, ZERO_BITS) ==> {
            let s = sphere_hit_seq(discriminant, t0, t1);
            &&& s.len() == 2
            &&& s.contains(HitRecord { distance: t0, entering: true, tag: NEAR_ROOT })
            &&& s.contains(HitRecord { distance: t1, entering: false, tag: FAR_ROOT })
        },
{
    let s = sphere_hit_seq(discriminant, t0, t1);
    if !lt(discriminant, ZERO_BITS) {
        if lt(t1, t0) {
            assert(s[1] == HitRecord { distance: t0, entering: true, tag: NEAR_ROOT });
            assert(s[0] == HitRecord { distance: t1, entering: false, tag: FAR_ROOT });
        } else {
            assert(s[0] == HitRecord { distance: t0, entering: true, tag: NEAR_ROOT });
            assert(s[1] == HitRecord { distance: t1, entering: false, tag: FAR_ROOT });
        }
    }
}

} // verus!
