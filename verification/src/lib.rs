//! Deterministic procedural terrain core: a terraced height field on a
//! fixed-point scale, a jittered-grid biome sampler, and a streaming chunk
//! manager with slope-aware decoration placement.

pub mod fixed;
pub mod hash;
pub mod height;
pub mod lighting;
pub mod mesh;
pub mod objects;
pub mod placement;
pub mod region;
pub mod sampler;
pub mod rng;
pub mod streamer;
pub mod weights;
