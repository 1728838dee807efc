//! A perfect-maze library: generation by Wilson's loop-erased random walk,
//! a per-cell connectivity bitmask with a hex codec, and move validation.

pub mod grid;
pub mod maze;
pub mod navigator;
pub mod rng;
pub mod wilson;
