//! Encode side of the post-filters: which filters are tried, which are kept, and how the choice is
//! signalled.

pub mod efe_linear;
pub mod efe_nonlinear;
pub mod icci;
pub mod weights;
