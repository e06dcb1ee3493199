//! A discrete-time, grid-based ant-colony foraging simulation: worker ants
//! explore a bounded grid, steered by decaying pheromone trails, carrying
//! food back to their colony. Randomness is injected through a replayable
//! source so that whole runs can be replayed deterministically.
//!
//! Beside the simulation the crate carries a set of small verified
//! algorithms: classic sorting routines, a run-length coder, a sudoku
//! solver and the steering rule of a snake game.

pub mod ant;
pub mod food;
pub mod geometry;
pub mod pheromone;
pub mod rle;
pub mod rng;
pub mod snake;
pub mod sorting;
pub mod sudoku;
pub mod world;
