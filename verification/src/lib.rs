//! Shortest paths for the pen-and-paper vector race.
//!
//! A token moves over a grid inside a closed track. Each move may differ from
//! the move before it by at most one cell on each axis; only the first move is
//! free within a range. The search finds every shortest path from a start
//! point to the finish edge that touches no wall on its way.

pub mod boundary;
pub mod display;
pub mod geometry;
pub mod incidence;
mod levels;
pub mod list;
pub mod rules;
pub mod search;
pub mod step;
pub mod store;

pub use crate::boundary::Boundaries;
pub use crate::geometry::{Point, Segment, Vector2};
pub use crate::search::compute_final_paths;
