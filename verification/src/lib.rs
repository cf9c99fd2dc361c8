//! Core of a 2D explosive-interaction subsystem: bombs that detonate on
//! contact, push nearby bodies with a tuned falloff impulse, and chain-trigger
//! each other, with the cascade guaranteed to terminate.
//!
//! Geometry is carried in fixed-point micro-units (millionths of a world
//! unit), so every computation here is exact integer arithmetic. The physics
//! engine, rendering and input layers are external collaborators; they talk to
//! this crate through plain values.

pub mod birdies;
pub mod falloff;
pub mod geom;
pub mod laws;
pub mod sling;
pub mod world;

pub use birdies::BirdResources;
pub use falloff::Impulse;
pub use geom::Pos;
pub use sling::Sling;
pub use world::{BombSpawn, Config, World};
