//! Decoder pipeline: limits, admission, headers and the entropy stage.

pub mod api;
pub mod budget;
pub mod entropy;
pub mod front;
pub mod headers;
pub mod limits;
pub mod output;
pub mod stats;
pub mod synthesis;

pub use api::Decoder;
pub use budget::{BudgetGuard, BudgetPolicy, MemoryBudget};
pub use front::EntropyOptions;
pub use headers::{read_headers, Headers};
pub use limits::{estimate_memory, Limits, MemoryEstimate};
pub use output::{finish, Picture, RgbImage, YuvImage};
