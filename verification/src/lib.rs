//! Core of a fixed-step N-body simulation: entity and component storage,
//! a tick clock, and a dependency-ordered stage scheduler.
//!
//! The numeric stage bodies (gravity accumulation and the two integration
//! stages) operate on floating-point component values and live in the
//! surrounding application; this crate provides the verified storage,
//! clock accounting, and scheduling they run on.

pub mod entity;
pub mod schedule;
pub mod store;
pub mod time;
pub mod world;
