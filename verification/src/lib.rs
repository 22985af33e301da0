//! A spatial hash: a broad-phase index that files moving points under the
//! cells of a uniform grid and answers region queries by walking only the
//! cells that the region can touch.
//!
//! - `grid`: which cell holds a point.
//! - `query`: regions, and the order in which the cells they touch are walked.
//! - `bucket`: the points filed under one cell.
//! - `walk`: what a walk through the cells of a query yields.
//! - `spatial_hashmap`: the index and its queries.

pub mod bucket;
pub mod grid;
pub mod query;
pub mod spatial_hashmap;
pub mod walk;
