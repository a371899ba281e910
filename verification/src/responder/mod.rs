//! How values become responses.

pub mod json;
pub mod sse;
