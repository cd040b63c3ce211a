use raytracer::config::{CameraConfig, FramebufferConfig, SamplerConfig, RAYTRACE_RECURSE};
use raytracer::materials::{is_square_number, FalseColourMaterial, PhotonMappingMaterial};

#[test]
fn configuration_defaults() {
    let c = CameraConfig::default();
    assert_eq!(c.raytrace_recurse, 5);
    assert_eq!(c.num_camera_ray_samples, 16);
    assert_eq!(c.raytrace_recurse, RAYTRACE_RECURSE);
    assert_eq!(SamplerConfig::default().num_sets, 4);
    let f = FramebufferConfig::default();
    assert_eq!((f.width, f.height, f.max_width, f.max_height), (512, 512, 2048, 2048));
}

#[test]
fn square_sample_counts() {
    for n in [0u32, 1, 4, 9, 16, 64, 65_536, 4_294_836_225] {
        assert!(is_square_number(n), "{}", n);
    }
    for n in [2u32, 3, 8, 15, 17, 65_535, 4_294_967_295] {
        assert!(!is_square_number(n), "{}", n);
    }
    // Agrees with the floating-point test for every small count.
    for n in 0u32..10_000 {
        assert_eq!(is_square_number(n), ((n as f64).sqrt() as u32).pow(2) == n);
    }
}

#[test]
fn colourless_materials() {
    let _ = FalseColourMaterial::new();
    let _ = PhotonMappingMaterial::new();
    let _ = PhotonMappingMaterial::default();
}
