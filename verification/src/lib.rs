//! Core of a streaming voxel world.
//!
//! The library keeps a cubic window of 16x16x16 block chunks resident around
//! a moving observer: it decides which chunks must exist, generates or loads
//! their contents, turns block data into renderable geometry, persists
//! modified chunks through an in-memory save store, and evicts chunks that
//! fall outside the view radius (with a hysteresis margin against thrash).
//!
//! Everything that touches the operating system or the GPU stays outside:
//! the host hands world positions in, drains draw commands and dirty save
//! images out, and uploads geometry itself.

pub mod pos;
pub mod assoc;
pub mod meshdata;
pub mod meshgen;
pub mod builtin;
pub mod registry;
pub mod gpu;
pub mod chunk;
pub mod server;
pub mod laws;
