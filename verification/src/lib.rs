//! Simulation core of a 2D tile-based game engine.
//!
//! The library turns a declarative map description into live entities with
//! components and advances their physical state each tick: asynchronous load
//! tracking, recursive layer decomposition, entity assembly, motion
//! integration and barrier-collision resolution over an incrementally
//! maintained spatial index.

pub mod assemble;
pub mod geom;
pub mod tiled;
pub mod layers;
pub mod load;
pub mod physics;
pub mod spatial;
pub mod world;
