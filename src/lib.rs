//! Route synthesis for pen plotters: exact integer geometry, collision-aware
//! route building, a passage counter, lattice sampling, proximity grouping
//! and a spiral tour.

pub mod error;
pub mod geometry;
pub mod grouping;
pub mod passage;
pub mod polygon;
pub mod routes;
pub mod sampling;
pub mod spiral;
pub mod tour;
