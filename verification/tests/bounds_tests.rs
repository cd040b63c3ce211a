use raytracer::bounds::{bounding_box, Point3};

fn point(x: f32, y: f32, z: f32) -> Point3 {
    Point3 { x: x.to_bits(), y: y.to_bits(), z: z.to_bits() }
}

#[test]
fn box_of_one_vertex_is_that_vertex() {
    let p = point(1.5, -2.0, 3.0);
    assert_eq!(bounding_box(&vec![p]), (p, p));
}

#[test]
fn box_spans_the_vertices() {
    let points = vec![
        point(1.0, 5.0, -1.0),
        point(-3.0, 2.0, 4.0),
        point(2.0, -7.0, 0.5),
        point(0.0, 0.0, 0.0),
    ];
    assert_eq!(bounding_box(&points), (point(-3.0, -7.0, -1.0), point(2.0, 5.0, 4.0)));
}

#[test]
fn box_skips_nan_coordinates_like_f32_min_max() {
    let points = vec![point(f32::NAN, 1.0, 1.0), point(2.0, f32::NAN, -1.0), point(-1.0, 3.0, f32::NAN)];
    let (lo, hi) = bounding_box(&points);
    let expected_lo = (
        f32::NAN.min(2.0).min(-1.0),
        1.0f32.min(f32::NAN).min(3.0),
        1.0f32.min(-1.0).min(f32::NAN),
    );
    assert_eq!((f32::from_bits(lo.x), f32::from_bits(lo.y), f32::from_bits(lo.z)), expected_lo);
    assert_eq!((f32::from_bits(hi.x), f32::from_bits(hi.y), f32::from_bits(hi.z)), (2.0, 3.0, 1.0));
}
