//! Beatpath strengths of the Schulze method, computed two ways: an iterative
//! widest-path sweep and an unmemoised recursion of the same recurrence.
//!
//! `schulze` holds the preparation of a preference matrix, both solvers, the
//! win counts and the laws that relate them; `paths` shows that the solved
//! strengths are widest-path strengths; `generator` makes sample and random
//! elections; `render` draws a matrix as a text grid.

pub mod generator;
pub mod paths;
pub mod render;
pub mod schulze;
