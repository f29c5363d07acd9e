//! A small ray tracer core: spheres, a bounce tracer and a frame renderer.
//!
//! The crate holds the discrete part of the renderer: which sphere a ray
//! reacts to, how colours accumulate over bounces, and where each pixel lands
//! in the output buffer. The numeric geometry is supplied by the caller
//! through [`RayIntersectable`].

pub mod color;
pub mod frame;
pub mod scene;
pub mod tracer;

pub use color::{blend_channel, Color};
pub use scene::{has_unique_ids, RayIntersectable, Shape, Sphere};
pub use tracer::{bounce, find_first_hit, is_candidate, trace, Trace, MAX_BOUNCES};
pub use frame::{pixel_at, pixel_coordinates, pixel_offset, push_pixel, render};
