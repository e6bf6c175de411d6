//! A discretized incompressible-flow solver on a fixed 2D staggered grid.
//!
//! Velocities are carried in a signed fixed-point representation: one
//! physical unit is `SCALE` ticks (see `units`).  All solver arithmetic is
//! exact integer arithmetic, so every stage of the pipeline — boundary
//! enforcement, pressure projection, semi-Lagrangian advection and vorticity
//! confinement — has a full functional specification.

pub mod config;
pub mod fluid;
pub mod fluidapi;
pub mod laws;
pub mod mirror;
pub mod source;
pub mod units;
pub mod utils;
