//! Codestream syntax, entropy coding and resource accounting of a JPEG AI codec.

pub mod area;
pub mod bitio;
pub mod bits;
pub mod cli;
pub mod codec;
pub mod container;
pub mod decoder;
pub mod encoder;
pub mod error;
pub mod filters;
pub mod header;
pub mod laws;
pub mod mans;
pub mod mem;
pub mod planes;
pub mod png;
pub mod regions;
pub mod residual;
pub mod tensor;
pub mod text;
