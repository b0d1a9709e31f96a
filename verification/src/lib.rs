//! A verified engine for Conway's Game of Life.
//!
//! The engine keeps a sparse set of live cells on a plane of signed
//! coordinates and advances it synchronously under the classic B3/S23
//! rule: a live cell survives with exactly 2 or 3 live Moore neighbors,
//! a dead cell is born with exactly 3.
//!
//! `rule` holds the mathematical model of the automaton; `engine` the
//! executable state with its contracts; `patterns` the classic seed
//! shapes; `random` a deterministic pseudo-random seeding routine.
//! Rendering is left to external collaborators, which read snapshots
//! through the engine's query methods.

pub mod engine;
pub mod patterns;
pub mod random;
pub mod rule;
