//! Cheapest path across a weighted grid under run-length limits.
//!
//! A walker starts on the top-left cell and must reach the bottom-right
//! cell. It may never reverse, may keep its heading only while the run of
//! steps in that heading stays within `max_run`, and may turn only after a
//! run of at least `min_run` steps. Entering a cell costs that cell's weight.

pub mod frontier;
pub mod input;
pub mod laws;
pub mod model;
pub mod optimal;
pub mod search;
pub mod solver;
pub mod table;
