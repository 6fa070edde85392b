//! A maze-generation library built around a graph pool that separates
//! *possible* connections (adjacency, fixed geometry) from *actual*
//! connections (links, the carved passages of a maze).
//!
//! The pool owns the nodes and both relations; a connectivity checker
//! proves a layout is one region before generation; six interchangeable
//! algorithms carve the passages; a breadth-first distance engine measures
//! the result; and a binary codec serializes masked mazes, validating
//! reciprocity on the way back in.

pub mod cli;
pub mod dijkstra;
pub mod grid;
pub mod masked_grid;
pub mod maze;
pub mod polar_grid;
pub mod pool;
pub mod rng;
pub mod triangle_grid;
