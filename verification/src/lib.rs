//! A weighted-grid shortest-path engine.
//!
//! A rectangular grid of terrain cells, each with a per-cell traversal
//! cost, is searched with a heuristic-guided best-first search (A*) for a
//! minimum-cost route between two cells. The grid, the cost model, the
//! frontier queue and the search itself live here; rendering, input and
//! map-file reading are left to the surrounding application.

pub mod frontier;
pub mod grid;
pub mod search;
