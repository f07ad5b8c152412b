//! A verified incremental engine for Conway's Game of Life.
//!
//! The grid keeps, for every cell, a live/dead flag together with a running
//! count of live neighbors.  Each simulation step applies only the set of
//! cells whose state must flip, propagating the matching count deltas to the
//! neighbors resolved by the configured topology (bounded or toroidal).

pub mod config;
pub mod engine;
pub mod grid;
pub mod loader;
pub mod topology;
