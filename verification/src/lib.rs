//! A simplified Wave Function Collapse tile-map solver.
//!
//! A catalog of square tiles, each tagged with a symmetry class, and a static
//! adjacency table feed an N x N grid of cells. The solver repeatedly
//! collapses the lowest-entropy cell to a single tile id and propagates the
//! constraint to cardinal neighbors until the grid is fully collapsed or a
//! cell's candidate set empties (a contradiction).

pub mod catalog;
pub mod grid;
mod rng;
pub mod ruleset;
pub mod text;
pub mod tile;
