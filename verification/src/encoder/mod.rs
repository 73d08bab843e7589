//! Encoder: entropy coding, tiling, limits and the assembly of a codestream.

pub mod assemble;
pub mod colour;
pub mod commit;
pub mod filters;
pub mod grid;
pub mod limits;
pub mod pack;
pub mod params;
pub mod quantised;
pub mod rate;
pub mod residual;
pub mod round_trip;
pub mod stream;
pub mod tiles;
pub mod yuv;
