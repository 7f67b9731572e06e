//! Bookkeeping for a particle simulation on a grid of chunks: the spatial
//! index of the particles, the partition of the chunks into colour classes
//! that can be worked on at the same time, the plan and the run of the work on
//! one chunk, and the commit of its results.

pub mod chunk;
pub mod engine;
pub mod grid;
pub mod kernel;
pub mod reaction;
