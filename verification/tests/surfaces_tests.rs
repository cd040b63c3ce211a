use raytracer::csg::{csg_merge, HitRecord, Mode};
use raytracer::trace::first_hit;
use raytracer::surfaces::{
    bits_is_zero, plane_hits, quadric_hits, sphere_hits, triangle_hit, AT_INFINITY, CROSSING, FAR_ROOT, NEAR_ROOT,
};

fn hit(d: f32, entering: bool, tag: usize) -> HitRecord {
    HitRecord { distance: d.to_bits(), entering, tag }
}

#[test]
fn zero_test_matches_f32() {
    for &v in &[0.0f32, -0.0, 1e-40, -1e-40, 1.0, f32::NAN, f32::INFINITY] {
        assert_eq!(bits_is_zero(v.to_bits()), v == 0.0, "{}", v);
    }
}

#[test]
fn plane_ray_entering_from_outside() {
    // Plane y = 5 (0x + 1y + 0z - 5 = 0), ray from the origin going down:
    // offset -5, facing -1, crossing at t = -5 / 1 = -5.
    let hits = plane_hits((-5.0f32).to_bits(), (-1.0f32).to_bits(), (-5.0f32).to_bits());
    assert_eq!(hits, vec![hit(-5.0, true, CROSSING), hit(f32::INFINITY, false, AT_INFINITY)]);
}

#[test]
fn plane_ray_along_normal_leaves() {
    // Plane y = 5, ray from the origin going up: offset -5, facing 1, t = 5.
    let hits = plane_hits((-5.0f32).to_bits(), 1.0f32.to_bits(), 5.0f32.to_bits());
    assert_eq!(hits, vec![hit(f32::NEG_INFINITY, true, AT_INFINITY), hit(5.0, false, CROSSING)]);
}

#[test]
fn plane_parallel_ray_inside_or_outside() {
    let inside = plane_hits((-5.0f32).to_bits(), (-0.0f32).to_bits(), f32::NAN.to_bits());
    assert_eq!(
        inside,
        vec![hit(f32::NEG_INFINITY, true, AT_INFINITY), hit(f32::INFINITY, false, AT_INFINITY)]
    );
    let outside = plane_hits(3.0f32.to_bits(), 0.0f32.to_bits(), f32::NAN.to_bits());
    assert!(outside.is_empty());
    let on_plane = plane_hits(0.0f32.to_bits(), 0.0f32.to_bits(), f32::NAN.to_bits());
    assert!(on_plane.is_empty());
}

#[test]
fn plane_nan_facing_counts_as_entering() {
    let hits = plane_hits(1.0f32.to_bits(), f32::NAN.to_bits(), 2.0f32.to_bits());
    assert_eq!(hits, vec![hit(2.0, true, CROSSING), hit(f32::INFINITY, false, AT_INFINITY)]);
}

#[test]
fn sphere_hits_by_discriminant() {
    assert!(sphere_hits((-0.5f32).to_bits(), 1.0f32.to_bits(), 2.0f32.to_bits()).is_empty());
    assert_eq!(
        sphere_hits(0.0f32.to_bits(), 3.0f32.to_bits(), 3.0f32.to_bits()),
        vec![hit(3.0, true, NEAR_ROOT), hit(3.0, false, FAR_ROOT)]
    );
    assert_eq!(
        sphere_hits(4.0f32.to_bits(), (-1.0f32).to_bits(), 1.0f32.to_bits()),
        vec![hit(-1.0, true, NEAR_ROOT), hit(1.0, false, FAR_ROOT)]
    );
}

#[test]
fn quadric_hits_rules() {
    let t0 = 1.0f32.to_bits();
    let t1 = 4.0f32.to_bits();
    // Negative discriminant, or a zero leading coefficient: no hits.
    assert!(quadric_hits(1.0f32.to_bits(), (-1.0f32).to_bits(), t0, t1).is_empty());
    assert!(quadric_hits((-0.0f32).to_bits(), 9.0f32.to_bits(), t0, t1).is_empty());
    // Both roots behind the origin: no hits.
    assert!(quadric_hits(1.0f32.to_bits(), 9.0f32.to_bits(), (-4.0f32).to_bits(), (-1.0f32).to_bits())
        .is_empty());
    // One root behind, one in front: both kept.
    assert_eq!(
        quadric_hits(1.0f32.to_bits(), 9.0f32.to_bits(), (-1.0f32).to_bits(), t1),
        vec![hit(-1.0, true, NEAR_ROOT), hit(4.0, false, FAR_ROOT)]
    );
    assert_eq!(
        quadric_hits(2.0f32.to_bits(), 9.0f32.to_bits(), t0, t1),
        vec![hit(1.0, true, NEAR_ROOT), hit(4.0, false, FAR_ROOT)]
    );
}

#[test]
fn plane_and_sphere_combine_as_solids() {
    // Sphere from 2 to 6 along the ray, half-space entered at 4.
    let sphere: Vec<HitRecord> = sphere_hits(1.0f32.to_bits(), 2.0f32.to_bits(), 6.0f32.to_bits())
        .into_iter()
        .map(|h| HitRecord { tag: h.tag + 10, ..h })
        .collect();
    let plane = plane_hits((-4.0f32).to_bits(), (-1.0f32).to_bits(), 4.0f32.to_bits());
    let inter = csg_merge(Mode::CsgInter, &sphere, &plane);
    assert_eq!(inter, vec![hit(4.0, true, CROSSING), hit(6.0, false, FAR_ROOT + 10)]);
    let diff = csg_merge(Mode::CsgDiff, &sphere, &plane);
    assert_eq!(diff, vec![hit(2.0, true, NEAR_ROOT + 10), hit(4.0, false, CROSSING)]);
}

#[test]
fn triangle_hit_rules() {
    let b = |x: f32| x.to_bits();
    // Determinant too close to zero: the ray lies in the triangle's plane.
    assert_eq!(triangle_hit(b(5e-7), b(0.2), b(0.2), b(0.4)), None);
    assert_eq!(triangle_hit(b(-5e-7), b(0.2), b(0.2), b(0.4)), None);
    // u outside [0, 1].
    assert_eq!(triangle_hit(b(2.0), b(-0.1), b(0.2), b(0.1)), None);
    assert_eq!(triangle_hit(b(2.0), b(1.5), b(0.2), b(1.7)), None);
    assert_eq!(triangle_hit(b(2.0), b(f32::NAN), b(0.2), b(0.2)), None);
    // v negative, or u + v beyond 1.
    assert_eq!(triangle_hit(b(2.0), b(0.5), b(-0.1), b(0.4)), None);
    assert_eq!(triangle_hit(b(2.0), b(0.6), b(0.6), b(1.2)), None);
    // Inside: enters where the determinant is negative.
    assert_eq!(triangle_hit(b(-2.0), b(0.25), b(0.25), b(0.5)), Some(true));
    assert_eq!(triangle_hit(b(2.0), b(0.0), b(1.0), b(1.0)), Some(false));
    assert_eq!(triangle_hit(b(1e-6), b(1.0), b(0.0), b(1.0)), Some(false));
}

#[test]
fn quadric_roots_come_in_order_of_distance() {
    // Leading coefficient negative: the first root lies beyond the second,
    // so the exit comes first and is the first hit in front of the origin.
    let hits = quadric_hits((-1.0f32).to_bits(), 1.0f32.to_bits(), 2.0f32.to_bits(), 1.0f32.to_bits());
    assert_eq!(hits, vec![hit(1.0, false, FAR_ROOT), hit(2.0, true, NEAR_ROOT)]);
    assert_eq!(first_hit(&hits), Some((hit(1.0, false, FAR_ROOT), 0)));
    let hits = sphere_hits(1.0f32.to_bits(), 3.0f32.to_bits(), (-3.0f32).to_bits());
    assert_eq!(hits, vec![hit(-3.0, false, FAR_ROOT), hit(3.0, true, NEAR_ROOT)]);
}

fn dot(a: [f32; 3], b: [f32; 3]) -> f32 {
    a[0] * b[0] + a[1] * b[1] + a[2] * b[2]
}

/// The hit pool of a sphere along a ray, the roots computed in `f32` as
/// the sphere geometry computes them.
fn sphere_pool(center: [f32; 3], radius: f32, origin: [f32; 3], dir: [f32; 3]) -> Vec<HitRecord> {
    let to_origin = [origin[0] - center[0], origin[1] - center[1], origin[2] - center[2]];
    let a = dot(dir, dir);
    let b = 2.0 * dot(dir, to_origin);
    let c = dot(to_origin, to_origin) - radius.powi(2);
    let discriminant = b.powi(2) - 4.0 * a * c;
    let root = discriminant.sqrt();
    let t0 = (-b - root) / 2.0;
    let t1 = (-b + root) / 2.0;
    sphere_hits(discriminant.to_bits(), t0.to_bits(), t1.to_bits())
}

/// The hit pool of the plane `ax + by + cz + d = 0` along a ray, computed
/// in `f32` as the plane geometry computes it.
fn plane_pool(plane: [f32; 4], origin: [f32; 3], dir: [f32; 3]) -> Vec<HitRecord> {
    let offset = plane[0] * origin[0] + plane[1] * origin[1] + plane[2] * origin[2] + plane[3];
    let facing = plane[0] * dir[0] + plane[1] * dir[1] + plane[2] * dir[2];
    let t = offset / -facing;
    plane_hits(offset.to_bits(), facing.to_bits(), t.to_bits())
}

fn normalise(v: [f32; 3]) -> [f32; 3] {
    let length = dot(v, v).sqrt();
    [v[0] / length, v[1] / length, v[2] / length]
}

#[test]
fn test_sphere_ray_intersection_hit() {
    let pool = sphere_pool([0.0, 0.0, 0.0], 1.0, [0.0, 0.0, -5.0], [0.0, 0.0, 1.0]);
    assert_eq!(pool.len(), 2);
}

#[test]
fn test_sphere_ray_intersection_miss() {
    let pool = sphere_pool([0.0, 0.0, 0.0], 1.0, [5.0, 0.0, -5.0], [0.0, 0.0, 1.0]);
    assert_eq!(pool.len(), 0);
}

#[test]
fn test_sphere_first_hit() {
    let pool = sphere_pool([0.0, 0.0, 0.0], 1.0, [0.0, 0.0, -5.0], [0.0, 0.0, 1.0]);
    let (h, _) = first_hit(&pool).unwrap();
    assert!((f32::from_bits(h.distance) - 4.0).abs() <= 1e-5);
    assert!(h.entering);
    assert_eq!(h.tag, NEAR_ROOT);
}

#[test]
fn test_sphere_ray_tangent() {
    let pool = sphere_pool([0.0, 0.0, 0.0], 1.0, [1.0, 0.0, -5.0], [0.0, 0.0, 1.0]);
    assert!(pool.len() <= 2);
}

#[test]
fn test_sphere_very_large_radius() {
    let pool = sphere_pool([0.0, 0.0, 0.0], 1000.0, [0.0, 0.0, -5.0], [0.0, 0.0, 1.0]);
    assert!(first_hit(&pool).is_some());
}

#[test]
fn test_sphere_ray_from_center() {
    let pool = sphere_pool([0.0, 0.0, 0.0], 2.0, [0.0, 0.0, 0.0], [1.0, 0.0, 0.0]);
    let h = first_hit(&pool).map(|(h, _)| h);
    assert!(h.is_some());
    assert!((f32::from_bits(h.unwrap().distance) - 2.0).abs() <= 1e-5);
    assert!(!h.unwrap().entering);
}

#[test]
fn test_plane_ray_intersection_perpendicular() {
    // Plane y = 5, ray from the origin going up.
    let pool = plane_pool([0.0, 1.0, 0.0, -5.0], [0.0, 0.0, 0.0], [0.0, 1.0, 0.0]);
    assert!(pool.len() > 0);
}

#[test]
fn test_plane_ray_intersection_parallel() {
    // A ray parallel to the plane y = 5 from the origin, where y - 5 < 0:
    // the whole ray lies inside the half-space.
    let pool = plane_pool([0.0, 1.0, 0.0, -5.0], [0.0, 0.0, 0.0], [1.0, 0.0, 0.0]);
    assert_eq!(
        pool,
        vec![hit(f32::NEG_INFINITY, true, AT_INFINITY), hit(f32::INFINITY, false, AT_INFINITY)]
    );
}

#[test]
fn test_plane_first_hit() {
    let pool = plane_pool([0.0, 1.0, 0.0, -5.0], [0.0, 0.0, 0.0], [0.0, 1.0, 0.0]);
    let (h, _) = first_hit(&pool).unwrap();
    assert!(f32::from_bits(h.distance) > 0.0);
    assert!((f32::from_bits(h.distance) - 5.0).abs() <= 1e-5);
    assert_eq!(h.tag, CROSSING);
}

#[test]
fn test_plane_ray_on_plane() {
    // Ray starting on the plane y = 0 and running along it: no hits.
    let pool = plane_pool([0.0, 1.0, 0.0, 0.0], [5.0, 0.0, 0.0], [1.0, 0.0, 0.0]);
    assert!(pool.is_empty());
}

#[test]
fn test_plane_oblique_intersection() {
    let pool = plane_pool([0.0, 1.0, 0.0, -2.0], [0.0, 0.0, 0.0], normalise([0.0, 0.707, 0.707]));
    let h = first_hit(&pool);
    assert!(h.is_some());
    // Reached after 2 / sin(45 degrees) along the ray.
    assert!((f32::from_bits(h.unwrap().0.distance) - 2.0 * 2.0f32.sqrt()).abs() <= 1e-5);
}

#[test]
fn test_plane_away_facing_ray() {
    // Ray pointing away from the plane y = 5: it enters the half-space at
    // t = -5, behind the origin, so it has no hit in front of the origin
    // before leaving at infinity.
    let pool = plane_pool([0.0, 1.0, 0.0, -5.0], [0.0, 0.0, 0.0], [0.0, -1.0, 0.0]);
    assert_eq!(pool, vec![hit(-5.0, true, CROSSING), hit(f32::INFINITY, false, AT_INFINITY)]);
    assert_eq!(first_hit(&pool), Some((hit(f32::INFINITY, false, AT_INFINITY), 1)));
}
