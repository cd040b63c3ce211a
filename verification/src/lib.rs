//! Verified core of a small ray tracer: the framebuffer and the line drawer
//! that writes into it, the hits that planes and quadrics contribute to a
//! ray, the bounding box of a mesh, the constructive-solid-geometry hit merger, the selection of hits
//! along a ray, the sample-index bookkeeping of the
//! samplers, the photon-map shadow estimate and the integer parts of the
//! configuration.
//!
//! Floating-point values never appear here: where the logic only compares
//! or stores an `f32`, it carries the value's IEEE-754 binary32 encoding as
//! a `u32` (see [`float_bits`]).
pub mod float_bits;
pub mod framebuffer;
pub mod linedrawer;
pub mod csg;
pub mod trace;
pub mod sampler;
pub mod config;
pub mod materials;
pub mod photon;
pub mod surfaces;
pub mod bounds;
