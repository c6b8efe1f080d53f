//! A per-pixel ray-tracing core over fixed-point arithmetic.
//!
//! Scalars are signed 64-bit integers carrying `fixed::SCALE` units per 1.0;
//! every rounding step (truncating division, floor square root) is stated
//! exactly in the contracts, so the colour of each traced ray is pinned down
//! to the bit.

pub mod fixed;
pub mod scene;
pub mod raytracer;
