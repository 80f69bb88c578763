//! Collision engine for 2D schedule-diagram layout.
//!
//! The crate places labeled geometric elements (station labels, train-name
//! labels, stacked schedule lines) so that they do not overlap already-placed
//! shapes.  It offers exact convex-polygon overlap detection by the separating
//! axis theorem with minimum-translation-vector extraction, a uniform spatial
//! grid for candidate pruning, an iterative single-direction displacement
//! resolver, and a one-dimensional interval manager that fans overlapping
//! intervals out onto discrete stacking levels.
//!
//! All coordinates are integers counted in thousandths of a diagram unit, so
//! every geometric question the engine answers is exact.

pub mod error;
pub mod geom;
pub mod grid;
pub mod line;
pub mod manager;
pub mod sat;
pub mod units;
