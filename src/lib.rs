//! A Monte-Carlo path tracer over fixed-point arithmetic.
//!
//! Every quantity is an `i64` counting `1 / SCALE` units. Randomness is not
//! drawn here: each stochastic step takes its samples as arguments, so the
//! whole pipeline is a deterministic function of its inputs.
pub mod fixed;
pub mod vector;
pub mod color;
pub mod geometry;
pub mod material;
pub mod render;
pub mod camera;
pub mod sampler;
pub mod scene;
