//! What the operations are for, stated over their inputs and results.
//!
//! Each law here is a relation that holds of every input: how a result follows from what went in,
//! or how the results of several calls belong together.

pub mod coder;
pub mod encodes;
pub mod entropy;
pub mod filters;
pub mod geometry;
pub mod headers;
pub mod limits;
pub mod pictures;
pub mod post;
pub mod program;
pub mod resources;
pub mod searches;
pub mod streams;
pub mod tools;
