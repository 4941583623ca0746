//! A solver for the sliding-tile puzzle on an `n` by `n` board whose solved
//! layout numbers the cells along an inward clockwise spiral.

pub mod algo;
pub mod board;
pub mod finite;
pub mod heuristic;
pub mod moves;
pub mod node;
pub mod parity;
pub mod reader;
pub mod solver;
pub mod spiral;
