//! The integer parts of the renderer's configuration and their defaults.
use vstd::prelude::*;

verus! {

/// Recursion depth of a camera ray when no configuration says otherwise.
pub const RAYTRACE_RECURSE: u8 = 5;

/// Camera settings.
#[derive(Debug, Clone, Copy)]
pub struct CameraConfig {
    /// Maximum recursion depth for ray tracing.
    pub raytrace_recurse: u8,
    /// Number of camera ray samples for anti-aliasing.
    pub num_camera_ray_samples: u32,
}

impl Default for CameraConfig {
    fn default() -> (c: Self)
        ensures
            c.raytrace_recurse == 5,
            c.num_camera_ray_samples == 16,
    {
        CameraConfig { raytrace_recurse: 5, num_camera_ray_samples: 16 }
    }
}

/// Sampler settings.
#[derive(Debug, Clone, Copy)]
pub struct SamplerConfig {
    /// Number of sample sets to generate.
    pub num_sets: u32,
}

impl Default for SamplerConfig {
    fn default() -> (c: Self)
        ensures
            c.num_sets == 4,
    {
        SamplerConfig { num_sets: 4 }
    }
}

/// Framebuffer settings.
#[derive(Debug, Clone, Copy)]
pub struct FramebufferConfig {
    pub width: u16,
    pub height: u16,
    pub max_width: u16,
    pub max_height: u16,
}

impl Default for FramebufferConfig {
    fn default() -> (c: Self)
        ensures
            c.width == 512,
            c.height == 512,
            c.max_width == 2048,
            c.max_height == 2048,
    {
        FramebufferConfig { width: 512, height: 512, max_width: 2048, max_height: 2048 }
    }
}

} // verus!
